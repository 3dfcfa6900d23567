//! Relay decoding: belief propagation in legs that hand their posteriors on, each with
//! memory strengths of its own.

use vstd::prelude::*;

use crate::arith::{abs, magnitude};
use crate::decoder::{
    consistent, lemma_quality_bound, BPExtraResult, DecodeResult, Decoder, LegsDrawn, ResultModel,
};
use crate::matrix::{Bit, MatrixModel, SparseBitMatrix};
use crate::min_sum::{
    coins_at, is_gain, BpModel, MinSumBPDecoder, MinSumDecoderConfig,
};

verus! {

/// When a relay decoder stops.
#[derive(Clone, Copy, Debug, PartialEq, Eq, Structural)]
pub enum StoppingCriterion {
    /// After the first leg, if it converged.
    PreIter,
    /// After `stop_after` legs have converged.
    NConv { stop_after: usize },
    /// After all legs.
    All,
}

impl Default for StoppingCriterion {
    fn default() -> (r: Self)
        ensures
            r == (StoppingCriterion::NConv { stop_after: 1 }),
    {
        StoppingCriterion::NConv { stop_after: 1 }
    }
}

/// The parameters of a relay decoder.
#[derive(Debug)]
pub struct RelayDecoderConfig {
    /// The most iterations of the first leg.
    pub pre_iter: usize,
    /// The number of legs after the first.
    pub num_sets: usize,
    /// The most iterations of each leg after the first.
    pub set_max_iter: usize,
    /// The memory strengths of each leg, in turn; drawn if absent.
    pub explicit_gammas: Option<Vec<Vec<i64>>>,
    /// When to stop.
    pub stopping_criterion: StoppingCriterion,
    /// Whether some legs repel variables of high confidence.
    pub repulsive: bool,
    /// The magnitude that a posterior of high confidence exceeds; two units if absent.
    pub abs_llr_threshold: Option<i64>,
    /// The distance between repulsive legs; one if absent.
    pub pulse_per_leg: Option<usize>,
    /// The number of ordinary legs before the first repulsive one; none if absent.
    pub start_leg: Option<usize>,
}

/// What was drawn for one leg.
#[derive(Clone, Debug)]
pub struct RelayDraws {
    /// A memory strength for each variable.
    pub gammas: Vec<i64>,
    /// A repulsive memory strength for each variable.
    pub repulsive_gammas: Vec<i64>,
}

/// The legs that were run and the state after the last.
#[verifier::ext_equal]
pub struct RelayTrace {
    pub legs: Seq<ResultModel>,
    pub last: BpModel,
}

/// One memory strength for each of `cols` variables.
pub open spec fn are_gains(gammas: Seq<i64>, cols: nat) -> bool {
    &&& gammas.len() == cols
    &&& forall|v: int| 0 <= v < cols ==> is_gain(#[trigger] gammas[v])
}

/// The coins of leg `leg`; none are thrown past the end.
pub open spec fn leg_coins(coins: Seq<Vec<Vec<bool>>>, leg: int) -> Seq<Vec<bool>> {
    if 0 <= leg < coins.len() {
        coins[leg]@
    } else {
        Seq::empty()
    }
}

/// The number of legs that converged.
pub open spec fn successes(legs: Seq<ResultModel>) -> nat
    decreases legs.len(),
{
    if legs.len() == 0 {
        0
    } else {
        successes(legs.drop_last()) + if legs.last().success {
            1nat
        } else {
            0
        }
    }
}

/// The iterations of all legs.
pub open spec fn total_iterations(legs: Seq<ResultModel>) -> nat
    decreases legs.len(),
{
    if legs.len() == 0 {
        0
    } else {
        total_iterations(legs.drop_last()) + legs.last().iterations
    }
}

/// The first leg of least weight among those that converged; the first leg if none did.
pub open spec fn best_leg(legs: Seq<ResultModel>) -> int
    decreases legs.len(),
{
    if legs.len() <= 1 {
        0
    } else {
        let b = best_leg(legs.drop_last());
        if legs.last().success && legs.last().quality < legs[b].quality {
            legs.len() - 1
        } else {
            b
        }
    }
}

/// The best leg with the iterations of all legs.
pub open spec fn relayed(legs: Seq<ResultModel>) -> ResultModel {
    ResultModel { iterations: total_iterations(legs), ..legs[best_leg(legs)] }
}

/// The result of a list of legs: the first of least weight among those that converged, the
/// last one if none did; with the iterations of all.
pub open spec fn lightest(legs: Seq<ResultModel>) -> ResultModel {
    let chosen = if successes(legs) == 0 {
        legs.last()
    } else {
        legs[best_leg(legs)]
    };
    ResultModel { iterations: total_iterations(legs), ..chosen }
}

/// The last leg with the iterations of all legs.
pub open spec fn final_leg(legs: Seq<ResultModel>) -> ResultModel {
    ResultModel { iterations: total_iterations(legs), ..legs.last() }
}

impl BpModel {
    /// Iterating until the decoding explains the detectors, `n` times at most. The counter
    /// stays before the iteration that explains them.
    pub open spec fn settle(self, det: Seq<Bit>, coins: Seq<Vec<bool>>, n: nat) -> BpModel
        decreases n,
    {
        if n == 0 {
            self
        } else {
            let next = self.iterate(det, coins_at(coins, self.iteration as int));
            if next.converged(det) {
                next
            } else {
                next.counted().settle(det, coins, (n - 1) as nat)
            }
        }
    }

    /// The result of a leg of at most `n` iterations that ended in this state. Every
    /// iteration counts, the one that explains the detectors too.
    pub open spec fn leg_result(self, det: Seq<Bit>, n: nat) -> ResultModel {
        let r = self.result(self.converged(det), self.decoded_detectors(), n);
        if n > 0 && r.success {
            ResultModel { iterations: self.iteration + 1, ..r }
        } else {
            r
        }
    }

    /// The result of one leg of at most `n` iterations.
    pub open spec fn settled(self, det: Seq<Bit>, coins: Seq<Vec<bool>>, n: nat) -> ResultModel {
        self.settle(det, coins, n).leg_result(det, n)
    }
}

impl RelayDecoderConfig {
    /// All parameters agree.
    pub open spec fn same_as(self, other: Self) -> bool {
        &&& self.pre_iter == other.pre_iter
        &&& self.num_sets == other.num_sets
        &&& self.set_max_iter == other.set_max_iter
        &&& self.stopping_criterion == other.stopping_criterion
        &&& self.repulsive == other.repulsive
        &&& self.abs_llr_threshold == other.abs_llr_threshold
        &&& self.pulse_per_leg == other.pulse_per_leg
        &&& self.start_leg == other.start_leg
        &&& match (self.explicit_gammas, other.explicit_gammas) {
            (Some(a), Some(b)) => a.len() == b.len() && forall|s: int|
                0 <= s < a.len() ==> (#[trigger] a[s])@ == b[s]@,
            (None, None) => true,
            _ => false,
        }
    }

    /// The parameters fit a code with `cols` variables.
    pub open spec fn wf(self, cols: nat) -> bool {
        &&& self.explicit_gammas matches Some(g) ==> {
            &&& g.len() > 0 || self.num_sets == 0
            &&& forall|s: int| 0 <= s < g.len() ==> are_gains(#[trigger] g[s]@, cols)
        }
        &&& self.num_sets < usize::MAX
        &&& self.pulse_per_leg != Some(0usize)
        &&& self.abs_llr_threshold != Some(i64::MIN)
        &&& self.pre_iter + self.num_sets * self.set_max_iter <= usize::MAX
    }

    /// What was drawn suffices for all legs.
    pub open spec fn supplied(self, draws: Seq<RelayDraws>, cols: nat) -> bool {
        self.explicit_gammas is None ==> {
            &&& draws.len() >= self.num_sets
            &&& forall|s: int|
                0 <= s < self.num_sets ==> are_gains(#[trigger] draws[s].gammas@, cols) && (
                self.repulsive ==> are_gains(draws[s].repulsive_gammas@, cols))
        }
    }

    /// Whether leg `set` is repulsive.
    pub open spec fn repels(self, set: nat) -> bool {
        let start: nat = match self.start_leg {
            Some(s) => s as nat,
            None => 0,
        };
        let pulse: nat = match self.pulse_per_leg {
            Some(p) => p as nat,
            None => 1,
        };
        self.repulsive && set > start && (set - 1 - start) as nat % pulse == 0
    }

    /// The magnitude that a posterior of high confidence exceeds, where the unit is `one`.
    pub open spec fn threshold(self, one: int) -> int {
        match self.abs_llr_threshold {
            Some(t) => t as int,
            None => 2 * one,
        }
    }

    /// The memory strengths of leg `set` after a leg that ended in `d`: the explicit ones in
    /// turn, or those drawn, which are the repulsive ones where the leg is repulsive and the
    /// confidence high.
    pub open spec fn gammas_at(self, draws: Seq<RelayDraws>, d: BpModel, set: nat) -> Seq<i64> {
        match self.explicit_gammas {
            Some(g) => g[set as int % g.len() as int]@,
            None => if self.repels(set) {
                Seq::new(
                    d.cols(),
                    |v: int|
                        if abs(d.posterior[v] as int) > self.threshold(d.config.one()) {
                            draws[set - 1].repulsive_gammas[v]
                        } else {
                            draws[set - 1].gammas[v]
                        },
                )
            } else {
                draws[set - 1].gammas@
            },
        }
    }

    /// Leg `set` starts: new memory strengths, the messages at their start and the
    /// posteriors handed on.
    pub open spec fn leg_start(self, draws: Seq<RelayDraws>, d: BpModel, set: nat) -> BpModel {
        BpModel {
            memory: self.gammas_at(draws, d, set),
            iteration: 0,
            ..d
        }.checks_silent().variables_at_prior()
    }

    /// Whether `n` legs that converged suffice.
    pub open spec fn enough(self, n: nat) -> bool {
        match self.stopping_criterion {
            StoppingCriterion::NConv { stop_after } => n >= stop_after,
            _ => false,
        }
    }

    /// The trace with leg `set` added.
    pub open spec fn leg_added(
        self,
        draws: Seq<RelayDraws>,
        coins: Seq<Vec<Vec<bool>>>,
        det: Seq<Bit>,
        t: RelayTrace,
        set: nat,
    ) -> RelayTrace {
        let s = self.leg_start(draws, t.last, set);
        let n = self.set_max_iter as nat;
        RelayTrace {
            legs: t.legs.push(s.settled(det, leg_coins(coins, set as int), n)),
            last: s.settle(det, leg_coins(coins, set as int), n),
        }
    }

    /// Running the legs from `set` on.
    pub open spec fn legs_from(
        self,
        draws: Seq<RelayDraws>,
        coins: Seq<Vec<Vec<bool>>>,
        det: Seq<Bit>,
        t: RelayTrace,
        set: nat,
    ) -> RelayTrace
        decreases self.num_sets + 1 - set,
    {
        if set > self.num_sets {
            t
        } else {
            let next = self.leg_added(draws, coins, det, t, set);
            if next.legs.last().success && self.enough(successes(next.legs)) {
                next
            } else {
                self.legs_from(draws, coins, det, next, set + 1)
            }
        }
    }

    /// The first leg, from the state `d`.
    pub open spec fn first_leg(
        self,
        coins: Seq<Vec<Vec<bool>>>,
        det: Seq<Bit>,
        d: BpModel,
    ) -> RelayTrace {
        let n = self.pre_iter as nat;
        RelayTrace {
            legs: seq![d.initialized().settled(det, leg_coins(coins, 0), n)],
            last: d.initialized().settle(det, leg_coins(coins, 0), n),
        }
    }

    /// All legs of a decoder in the state `d`. The first leg ends the run if it converged
    /// and the criterion is content with it.
    pub open spec fn run(
        self,
        draws: Seq<RelayDraws>,
        coins: Seq<Vec<Vec<bool>>>,
        det: Seq<Bit>,
        d: BpModel,
    ) -> RelayTrace {
        let first = self.first_leg(coins, det, d);
        if first.legs[0].success && (self.stopping_criterion is PreIter || self.enough(1)) {
            first
        } else {
            self.legs_from(draws, coins, det, first, 1)
        }
    }
}

impl Clone for RelayDecoderConfig {
    fn clone(&self) -> (r: Self)
        ensures
            r.same_as(*self),
    {
        let explicit_gammas: Option<Vec<Vec<i64>>> = match &self.explicit_gammas {
            Some(g) => {
                let mut out: Vec<Vec<i64>> = Vec::new();
                let mut s: usize = 0;
                while s < g.len()
                    invariant
                        s <= g.len(),
                        out.len() == s,
                        forall|k: int| 0 <= k < s ==> (#[trigger] out[k])@ == g[k]@,
                    decreases g.len() - s,
                {
                    out.push(g[s].clone());
                    s += 1;
                }
                Some(out)
            },
            None => None,
        };
        RelayDecoderConfig {
            pre_iter: self.pre_iter,
            num_sets: self.num_sets,
            set_max_iter: self.set_max_iter,
            explicit_gammas,
            stopping_criterion: self.stopping_criterion,
            repulsive: self.repulsive,
            abs_llr_threshold: self.abs_llr_threshold,
            pulse_per_leg: self.pulse_per_leg,
            start_leg: self.start_leg,
        }
    }
}

impl Default for RelayDecoderConfig {
    fn default() -> (r: Self)
        ensures
            r.pre_iter == 80,
            r.num_sets == 300,
            r.set_max_iter == 60,
            r.explicit_gammas is None,
            r.stopping_criterion == (StoppingCriterion::NConv { stop_after: 1 }),
            !r.repulsive,
            r.abs_llr_threshold is None,
            r.pulse_per_leg is None,
            r.start_leg is None,
    {
        RelayDecoderConfig {
            pre_iter: 80,
            num_sets: 300,
            set_max_iter: 60,
            explicit_gammas: None,
            stopping_criterion: StoppingCriterion::NConv { stop_after: 1 },
            repulsive: false,
            abs_llr_threshold: None,
            pulse_per_leg: None,
            start_leg: None,
        }
    }
}

/// What is kept of one leg.
#[derive(Clone, Copy, Debug)]
pub struct RelayLeg {
    pub iterations: usize,
    pub converged: bool,
    pub quality: i128,
}

/// A decoder that relays the posteriors of a min-sum decoder from leg to leg.
#[derive(Clone, Debug)]
pub struct RelayDecoder {
    pub bp_decoder: MinSumBPDecoder,
    pub relay_config: RelayDecoderConfig,
    /// The legs of the last decoding.
    pub legs: Vec<RelayLeg>,
}

/// `kept` is what is kept of `legs`.
pub open spec fn keeps(kept: Seq<RelayLeg>, legs: Seq<ResultModel>) -> bool {
    &&& kept.len() == legs.len()
    &&& forall|l: int|
        0 <= l < legs.len() ==> {
            &&& (#[trigger] kept[l]).iterations == legs[l].iterations
            &&& kept[l].converged == legs[l].success
            &&& kept[l].quality == legs[l].quality
        }
}

/// The legs of a state keep the code and the number of bits.
pub open spec fn same_code(d: BpModel, e: BpModel) -> bool {
    d.matrix == e.matrix && d.config == e.config && d.decoding.len() == e.decoding.len()
}

/// Legs weigh less than the greatest `i128` exactly where they converged.
pub open spec fn weighed(legs: Seq<ResultModel>) -> bool {
    forall|l: int|
        0 <= l < legs.len() ==> ((#[trigger] legs[l]).success <==> legs[l].quality < i128::MAX)
            && legs[l].quality <= i128::MAX
}

/// A result weighs less than the greatest `i128` exactly if it is a success.
pub proof fn lemma_result_weight(d: BpModel, success: bool, decoded: Seq<Bit>, n: nat)
    requires
        d.decoding.len() < usize::MAX,
    ensures
        ({
            let leg = d.result(success, decoded, n);
            &&& leg.success <==> leg.quality < i128::MAX
            &&& leg.quality <= i128::MAX
        }),
{
    let m = d.decoding.len();
    lemma_quality_bound(d.config.priors, d.decoding, m as int);
    assert(m * 0x8000_0000_0000_0000 < 0x1_0000_0000_0000_0000 * 0x8000_0000_0000_0000
        - 0x8000_0000_0000_0000) by (nonlinear_arith)
        requires
            m < 0xffff_ffff_ffff_ffff,
    ;
}

proof fn lemma_settle_same_code(d: BpModel, det: Seq<Bit>, coins: Seq<Vec<bool>>, n: nat)
    requires
        d.decoding.len() == d.cols(),
    ensures
        same_code(d, d.settle(det, coins, n)),
    decreases n,
{
    if n > 0 {
        let next = d.iterate(det, coins_at(coins, d.iteration as int));
        if !next.converged(det) {
            lemma_settle_same_code(next.counted(), det, coins, (n - 1) as nat);
        }
    }
}

proof fn lemma_settled_weight(d: BpModel, det: Seq<Bit>, coins: Seq<Vec<bool>>, n: nat)
    requires
        d.decoding.len() == d.cols(),
        d.cols() < usize::MAX,
    ensures
        ({
            let leg = d.settled(det, coins, n);
            (leg.success <==> leg.quality < i128::MAX) && leg.quality <= i128::MAX
        }),
{
    lemma_settle_same_code(d, det, coins, n);
    let last = d.settle(det, coins, n);
    lemma_result_weight(last, last.converged(det), last.decoded_detectors(), n);
}

proof fn lemma_legs_weighed(
    config: RelayDecoderConfig,
    draws: Seq<RelayDraws>,
    coins: Seq<Vec<Vec<bool>>>,
    det: Seq<Bit>,
    t: RelayTrace,
    set: nat,
)
    requires
        t.last.decoding.len() == t.last.cols(),
        t.last.cols() < usize::MAX,
        t.legs.len() > 0,
        weighed(t.legs),
    ensures
        weighed(config.legs_from(draws, coins, det, t, set).legs),
        config.legs_from(draws, coins, det, t, set).legs.len() > 0,
    decreases config.num_sets + 1 - set,
{
    if set <= config.num_sets {
        let s = config.leg_start(draws, t.last, set);
        let n = config.set_max_iter as nat;
        let next = config.leg_added(draws, coins, det, t, set);
        lemma_settle_same_code(s, det, leg_coins(coins, set as int), n);
        lemma_settled_weight(s, det, leg_coins(coins, set as int), n);
        assert forall|l: int| 0 <= l < next.legs.len() implies ((#[trigger] next.legs[l]).success
            <==> next.legs[l].quality < i128::MAX) && next.legs[l].quality <= i128::MAX by {
            if l < t.legs.len() {
                assert(next.legs[l] == t.legs[l]);
            }
        }
        if !(next.legs.last().success && config.enough(successes(next.legs))) {
            lemma_legs_weighed(config, draws, coins, det, next, set + 1);
        }
    }
}

/// The result of a relay decoder weighs no more than any of its legs, and it is a success
/// exactly if some leg is.
pub proof fn law_relay_best(
    config: RelayDecoderConfig,
    draws: Seq<RelayDraws>,
    coins: Seq<Vec<Vec<bool>>>,
    det: Seq<Bit>,
    d: BpModel,
)
    requires
        d.wf(),
    ensures
        ({
            let legs = config.run(draws, coins, det, d).legs;
            &&& 0 <= best_leg(legs) < legs.len()
            &&& forall|l: int|
                0 <= l < legs.len() ==> relayed(legs).quality <= (#[trigger] legs[l]).quality
            &&& relayed(legs).success <==> exists|l: int|
                0 <= l < legs.len() && (#[trigger] legs[l]).success
        }),
{
    let first = config.first_leg(coins, det, d);
    let n = config.pre_iter as nat;
    lemma_settle_same_code(d.initialized(), det, leg_coins(coins, 0), n);
    lemma_settled_weight(d.initialized(), det, leg_coins(coins, 0), n);
    if !(first.legs[0].success && (config.stopping_criterion is PreIter || config.enough(1))) {
        lemma_legs_weighed(config, draws, coins, det, first, 1);
    }
    lemma_best_leg(config.run(draws, coins, det, d).legs);
}

/// The result of a relay decoder is consistent: its syndrome is that of its estimate, and it
/// is a success exactly if that is the one that was decoded.
pub proof fn law_relay_consistent(
    config: RelayDecoderConfig,
    draws: Seq<RelayDraws>,
    coins: Seq<Vec<Vec<bool>>>,
    det: Seq<Bit>,
    d: BpModel,
)
    requires
        d.wf(),
    ensures
        consistent(d.matrix, det, relayed(config.run(draws, coins, det, d).legs)),
{
    let first = config.first_leg(coins, det, d);
    let n = config.pre_iter as nat;
    lemma_settle_same_code(d.initialized(), det, leg_coins(coins, 0), n);
    if !(first.legs[0].success && (config.stopping_criterion is PreIter || config.enough(1))) {
        lemma_legs_consistent(config, draws, coins, det, first, 1);
    }
    law_relay_best(config, draws, coins, det, d);
    let legs = config.run(draws, coins, det, d).legs;
    assert(consistent(d.matrix, det, legs[best_leg(legs)]));
}

proof fn lemma_legs_consistent(
    config: RelayDecoderConfig,
    draws: Seq<RelayDraws>,
    coins: Seq<Vec<Vec<bool>>>,
    det: Seq<Bit>,
    t: RelayTrace,
    set: nat,
)
    requires
        t.last.decoding.len() == t.last.cols(),
        forall|l: int|
            0 <= l < t.legs.len() ==> consistent(t.last.matrix, det, #[trigger] t.legs[l]),
    ensures
        ({
            let all = config.legs_from(draws, coins, det, t, set);
            forall|l: int|
                0 <= l < all.legs.len() ==> consistent(t.last.matrix, det, #[trigger] all.legs[l])
        }),
    decreases config.num_sets + 1 - set,
{
    if set <= config.num_sets {
        let s = config.leg_start(draws, t.last, set);
        let n = config.set_max_iter as nat;
        let next = config.leg_added(draws, coins, det, t, set);
        lemma_settle_same_code(s, det, leg_coins(coins, set as int), n);
        assert forall|l: int| 0 <= l < next.legs.len() implies consistent(
            next.last.matrix,
            det,
            #[trigger] next.legs[l],
        ) by {
            if l < t.legs.len() {
                assert(next.legs[l] == t.legs[l]);
            }
        }
        if !(next.legs.last().success && config.enough(successes(next.legs))) {
            lemma_legs_consistent(config, draws, coins, det, next, set + 1);
        }
    }
}

/// The best leg of a list weighs no more than any other, and it is a success exactly if some
/// leg is.
pub proof fn lemma_best_leg(legs: Seq<ResultModel>)
    requires
        legs.len() > 0,
        weighed(legs),
    ensures
        0 <= best_leg(legs) < legs.len(),
        forall|l: int| 0 <= l < legs.len() ==> relayed(legs).quality <= (#[trigger] legs[l]).quality,
        relayed(legs).success <==> exists|l: int| 0 <= l < legs.len() && (#[trigger] legs[l]).success,
    decreases legs.len(),
{
    if legs.len() > 1 {
        let shorter = legs.drop_last();
        assert forall|l: int| 0 <= l < shorter.len() implies ((#[trigger] shorter[l]).success
            <==> shorter[l].quality < i128::MAX) && shorter[l].quality <= i128::MAX by {
            assert(shorter[l] == legs[l]);
        }
        lemma_best_leg(shorter);
        let b = best_leg(shorter);
        assert(shorter[b] == legs[b]);
        assert forall|l: int| 0 <= l < legs.len() implies relayed(legs).quality <= (
        #[trigger] legs[l]).quality by {
            if l < shorter.len() {
                assert(shorter[l] == legs[l]);
            }
        }
        if relayed(legs).success {
            assert(legs[best_leg(legs)].success);
        }
    }
}

/// The results of all legs are consistent.
pub open spec fn all_consistent(
    matrix: MatrixModel,
    det: Seq<Bit>,
    legs: Seq<ResultModel>,
) -> bool {
    forall|l: int| 0 <= l < legs.len() ==> consistent(matrix, det, #[trigger] legs[l])
}

/// There are legs that converged exactly if their number is not zero.
pub proof fn lemma_successes(legs: Seq<ResultModel>)
    ensures
        successes(legs) > 0 <==> exists|l: int| 0 <= l < legs.len() && (#[trigger] legs[l]).success,
        successes(legs) <= legs.len(),
    decreases legs.len(),
{
    if legs.len() > 0 {
        let shorter = legs.drop_last();
        lemma_successes(shorter);
        if exists|l: int| 0 <= l < shorter.len() && (#[trigger] shorter[l]).success {
            let l = choose|l: int| 0 <= l < shorter.len() && (#[trigger] shorter[l]).success;
            assert(legs[l].success);
        }
        if exists|l: int| 0 <= l < legs.len() && (#[trigger] legs[l]).success {
            let l = choose|l: int| 0 <= l < legs.len() && (#[trigger] legs[l]).success;
            if l < shorter.len() {
                assert(shorter[l].success);
            }
        }
    }
}

/// The lightest of a list of legs is a success exactly if some leg is, and then no leg that
/// converged weighs less.
pub proof fn lemma_lightest(legs: Seq<ResultModel>)
    requires
        legs.len() > 0,
        weighed(legs),
    ensures
        lightest(legs).success <==> exists|l: int|
            0 <= l < legs.len() && (#[trigger] legs[l]).success,
        forall|l: int| 0 <= l < legs.len() ==> lightest(legs).quality <= (#[trigger] legs[l]).quality,
        successes(legs) > 0 ==> 0 <= best_leg(legs) < legs.len(),
{
    lemma_successes(legs);
    lemma_best_leg(legs);
    let last = legs[legs.len() - 1];
    if successes(legs) == 0 {
        assert forall|l: int| 0 <= l < legs.len() implies lightest(legs).quality <= (
        #[trigger] legs[l]).quality by {
            assert(!legs[l].success && !last.success);
        }
    }
}

/// A decoder that stops after `k` legs that converged never runs beyond them.
pub proof fn law_relay_stops(
    config: RelayDecoderConfig,
    draws: Seq<RelayDraws>,
    coins: Seq<Vec<Vec<bool>>>,
    det: Seq<Bit>,
    d: BpModel,
)
    requires
        config.stopping_criterion is NConv,
    ensures
        successes(config.run(draws, coins, det, d).legs) <= (
        if config.stopping_criterion->stop_after == 0 {
            1
        } else {
            config.stopping_criterion->stop_after as nat
        }),
{
    let first = config.first_leg(coins, det, d);
    reveal_with_fuel(successes, 2);
    assert(first.legs.drop_last() =~= Seq::empty());
    if !(first.legs[0].success && config.enough(1)) {
        lemma_legs_stop(config, draws, coins, det, first, 1);
    }
}

proof fn lemma_legs_stop(
    config: RelayDecoderConfig,
    draws: Seq<RelayDraws>,
    coins: Seq<Vec<Vec<bool>>>,
    det: Seq<Bit>,
    t: RelayTrace,
    set: nat,
)
    requires
        config.stopping_criterion is NConv,
        successes(t.legs) == 0 || !config.enough(successes(t.legs)),
    ensures
        successes(config.legs_from(draws, coins, det, t, set).legs) <= (
        if config.stopping_criterion->stop_after == 0 {
            1
        } else {
            config.stopping_criterion->stop_after as nat
        }),
    decreases config.num_sets + 1 - set,
{
    if set <= config.num_sets {
        let next = config.leg_added(draws, coins, det, t, set);
        assert(next.legs.drop_last() =~= t.legs);
        if !(next.legs.last().success && config.enough(successes(next.legs))) {
            lemma_legs_stop(config, draws, coins, det, next, set + 1);
        }
    }
}

impl MinSumBPDecoder {
    /// Iterates until the decoding explains the detectors, `max_iter` times at most.
    pub fn run_until_settled(
        &mut self,
        detectors: &Vec<Bit>,
        coins: &Vec<Vec<bool>>,
        max_iter: usize,
    ) -> (r: DecodeResult)
        requires
            old(self)@.wf(),
            old(self)@.iteration == 0,
            detectors.len() == old(self)@.matrix.rows,
        ensures
            final(self)@.wf(),
            final(self)@ == old(self)@.settle(detectors@, coins@, max_iter as nat),
            final(self)@.matrix == old(self)@.matrix,
            final(self)@.config == old(self)@.config,
            r@ == old(self)@.settled(detectors@, coins@, max_iter as nat),
            r.success ==> old(self)@.matrix.mul_mod2(r.decoding@) == detectors@,
            r.iterations <= max_iter,
            r.decoding.len() == old(self)@.cols(),
            r.posterior_ratios.len() == old(self)@.cols(),
            r.extra is NoExtra,
    {
        let ghost d = self@;
        let ghost all = d.settle(detectors@, coins@, max_iter as nat);
        let none: Vec<bool> = Vec::new();
        let mut success: bool = false;
        let mut decoded_detectors: Vec<Bit> = self.compute_decoded_detectors();
        let mut i: usize = 0;
        while i < max_iter && !success
            invariant
                self@.wf(),
                detectors.len() == self@.matrix.rows,
                self@.matrix == d.matrix,
                self@.config == d.config,
                i <= max_iter,
                self@.iteration == (if success {
                    i - 1
                } else {
                    i as int
                }),
                none.len() == 0,
                decoded_detectors@ == self@.decoded_detectors(),
                i == 0 ==> !success,
                i > 0 ==> success == self@.converged(detectors@),
                all == (if success {
                    self@
                } else {
                    self@.settle(detectors@, coins@, (max_iter - i) as nat)
                }),
            decreases max_iter - i + (if success {
                0int
            } else {
                1
            }),
        {
            if i < coins.len() {
                self.run_iteration(detectors, &coins[i]);
            } else {
                assert(none@ =~= Seq::empty());
                self.run_iteration(detectors, &none);
            }
            decoded_detectors = self.compute_decoded_detectors();
            success = self.check_convergence(detectors, &decoded_detectors);
            if !success {
                self.current_iteration = self.current_iteration + 1;
            }
            i += 1;
        }
        if max_iter == 0 {
            success = self.check_convergence(detectors, &decoded_detectors);
        }
        let mut r: DecodeResult = self.build_result(success, decoded_detectors, max_iter);
        r.iterations = i;
        assert(r@ =~= all.leg_result(detectors@, max_iter as nat));
        r
    }
}

impl RelayDecoder {
    /// The parts fit each other.
    pub open spec fn wf(self) -> bool {
        &&& self.bp_decoder@.wf()
        &&& self.relay_config.wf(self.bp_decoder@.cols())
    }

    /// A relay decoder for the code with check matrix `check_matrix`.
    pub fn new(
        check_matrix: SparseBitMatrix,
        min_sum_config: MinSumDecoderConfig,
        relay_config: RelayDecoderConfig,
    ) -> (r: Self)
        requires
            check_matrix@.wf(),
            min_sum_config@.wf(check_matrix@.cols),
            relay_config.wf(check_matrix@.cols),
        ensures
            r.wf(),
            r.bp_decoder@ == BpModel::built(check_matrix@, min_sum_config@),
            r.relay_config == relay_config,
            r.legs.len() == 0,
    {
        RelayDecoder {
            bp_decoder: MinSumBPDecoder::new(check_matrix, min_sum_config),
            relay_config,
            legs: Vec::new(),
        }
    }

    /// Whether leg `set_idx` is repulsive.
    pub fn should_apply_repulsive(&self, set_idx: usize) -> (r: bool)
        requires
            self.wf(),
        ensures
            r == self.relay_config.repels(set_idx as nat),
    {
        if !self.relay_config.repulsive {
            return false;
        }
        let start_leg: usize = match self.relay_config.start_leg {
            Some(s) => s,
            None => 0,
        };
        let pulse_per_leg: usize = match self.relay_config.pulse_per_leg {
            Some(p) => p,
            None => 1,
        };
        if set_idx <= start_leg {
            return false;
        }
        (set_idx - 1 - start_leg) % pulse_per_leg == 0
    }

    /// The memory strengths of leg `set_idx`.
    fn gammas_of(&self, draws: &Vec<RelayDraws>, set_idx: usize) -> (r: Vec<i64>)
        requires
            self.wf(),
            self.relay_config.supplied(draws@, self.bp_decoder@.cols()),
            1 <= set_idx <= self.relay_config.num_sets,
        ensures
            r@ == self.relay_config.gammas_at(draws@, self.bp_decoder@, set_idx as nat),
            are_gains(r@, self.bp_decoder@.cols()),
    {
        match &self.relay_config.explicit_gammas {
            Some(g) => {
                let row: usize = set_idx % g.len();
                g[row].clone()
            },
            None => {
                let ghost d = self.bp_decoder@;
                let ghost all = self.relay_config.gammas_at(draws@, d, set_idx as nat);
                assert(are_gains(draws@[set_idx - 1].gammas@, d.cols()));
                if !self.should_apply_repulsive(set_idx) {
                    return draws[set_idx - 1].gammas.clone();
                }
                let cols: usize = self.bp_decoder.check_matrix.cols;
                let threshold: i64 = match self.relay_config.abs_llr_threshold {
                    Some(t) => t,
                    None => 2 * self.bp_decoder.config.unit(),
                };
                let mut gammas: Vec<i64> = Vec::new();
                let mut v: usize = 0;
                while v < cols
                    invariant
                        self.wf(),
                        d == self.bp_decoder@,
                        cols == d.cols(),
                        v <= cols,
                        1 <= set_idx <= draws.len(),
                        are_gains(draws@[set_idx - 1].gammas@, cols as nat),
                        are_gains(draws@[set_idx - 1].repulsive_gammas@, cols as nat),
                        threshold == self.relay_config.threshold(d.config.one()),
                        self.relay_config.repels(set_idx as nat),
                        self.relay_config.explicit_gammas is None,
                        all == self.relay_config.gammas_at(draws@, d, set_idx as nat),
                        gammas.len() == v,
                        forall|u: int| 0 <= u < v ==> gammas[u] == all[u] && is_gain(#[trigger] gammas[u]),
                    decreases cols - v,
                {
                    assert(is_gain(draws@[set_idx - 1].gammas@[v as int]));
                    assert(is_gain(draws@[set_idx - 1].repulsive_gammas@[v as int]));
                    let sure: bool = magnitude(self.bp_decoder.posterior_ratios[v]) > threshold;
                    let gamma: i64 = if sure {
                        draws[set_idx - 1].repulsive_gammas[v]
                    } else {
                        draws[set_idx - 1].gammas[v]
                    };
                    gammas.push(gamma);
                    v += 1;
                }
                assert(gammas@ =~= all);
                gammas
            },
        }
    }

    /// One leg of at most `max_iter` iterations.
    pub fn decode_inner(
        &mut self,
        detectors: &Vec<Bit>,
        coins: &Vec<Vec<bool>>,
        max_iter: usize,
    ) -> (r: DecodeResult)
        requires
            old(self).wf(),
            old(self).bp_decoder@.iteration == 0,
            detectors.len() == old(self).bp_decoder@.matrix.rows,
        ensures
            final(self).wf(),
            final(self).relay_config == old(self).relay_config,
            final(self).legs == old(self).legs,
            final(self).bp_decoder@ == old(self).bp_decoder@.settle(
                detectors@,
                coins@,
                max_iter as nat,
            ),
            final(self).bp_decoder@.matrix == old(self).bp_decoder@.matrix,
            final(self).bp_decoder@.config == old(self).bp_decoder@.config,
            r@ == old(self).bp_decoder@.settled(detectors@, coins@, max_iter as nat),
            r.success ==> old(self).bp_decoder@.matrix.mul_mod2(r.decoding@) == detectors@,
            r.iterations <= max_iter,
            r.decoding.len() == old(self).bp_decoder@.cols(),
            r.posterior_ratios.len() == old(self).bp_decoder@.cols(),
            r.extra is NoExtra,
    {
        self.bp_decoder.run_until_settled(detectors, coins, max_iter)
    }

    /// Decodes a syndrome. `draws[s]` holds what was drawn for leg `s + 1`, and `coins[l]`
    /// the draws of leg `l` that count where messages may be dropped.
    pub fn decode_detailed(
        &mut self,
        detectors: &Vec<Bit>,
        draws: &Vec<RelayDraws>,
        coins: &Vec<Vec<Vec<bool>>>,
    ) -> (r: DecodeResult)
        requires
            old(self).wf(),
            old(self).relay_config.supplied(draws@, old(self).bp_decoder@.cols()),
            detectors.len() == old(self).bp_decoder@.matrix.rows,
        ensures
            final(self).wf(),
            final(self).relay_config == old(self).relay_config,
            ({
                let t = old(self).relay_config.run(
                    draws@,
                    coins@,
                    detectors@,
                    old(self).bp_decoder@,
                );
                &&& final(self).bp_decoder@ == t.last
                &&& keeps(final(self).legs@, t.legs)
                &&& r@ == relayed(t.legs)
            }),
            final(self).bp_decoder@.matrix == old(self).bp_decoder@.matrix,
            final(self).bp_decoder@.config == old(self).bp_decoder@.config,
            r.decoding.len() == old(self).bp_decoder@.cols(),
            r.posterior_ratios.len() == old(self).bp_decoder@.cols(),
            r.success ==> old(self).bp_decoder@.matrix.mul_mod2(r.decoding@) == detectors@,
            r.extra is NoExtra,
    {
        let ghost config = self.relay_config;
        let ghost d = self.bp_decoder@;
        let ghost matrix = self.bp_decoder@.matrix;
        let ghost all = config.run(draws@, coins@, detectors@, d);
        let none: Vec<Vec<bool>> = Vec::new();
        assert(none@ =~= Seq::empty());
        let num_sets: usize = self.relay_config.num_sets;
        let set_max_iter: usize = self.relay_config.set_max_iter;
        let pre_iter: usize = self.relay_config.pre_iter;
        let stopping_criterion: StoppingCriterion = self.relay_config.stopping_criterion;
        self.bp_decoder.initialize_decoder();
        let mut result: DecodeResult = if coins.len() > 0 {
            self.decode_inner(detectors, &coins[0], pre_iter)
        } else {
            self.decode_inner(detectors, &none, pre_iter)
        };
        let mut legs: Vec<RelayLeg> = Vec::new();
        legs.push(
            RelayLeg {
                iterations: result.iterations,
                converged: result.success,
                quality: result.decoding_quality,
            },
        );
        let ghost mut t = config.first_leg(coins@, detectors@, d);
        proof {
            assert(t.legs.drop_last() =~= Seq::empty());
            reveal_with_fuel(successes, 2);
            reveal_with_fuel(total_iterations, 2);
        }
        let mut num_conv: usize = 0;
        let mut total: usize = result.iterations;
        let mut done: bool = false;
        if result.success {
            num_conv = 1;
            done = match stopping_criterion {
                StoppingCriterion::PreIter => true,
                StoppingCriterion::NConv { stop_after } => num_conv >= stop_after,
                StoppingCriterion::All => false,
            };
        }
        let mut set: usize = 0;
        assert(all == (if done {
            t
        } else {
            config.legs_from(draws@, coins@, detectors@, t, 1)
        }));
        while set < num_sets && !done
            invariant
                self.wf(),
                self.relay_config == config,
                config == old(self).relay_config,
                config.supplied(draws@, self.bp_decoder@.cols()),
                num_sets == config.num_sets,
                set_max_iter == config.set_max_iter,
                pre_iter == config.pre_iter,
                stopping_criterion == config.stopping_criterion,
                none@ == Seq::<Vec<bool>>::empty(),
                set <= num_sets,
                self.bp_decoder@.matrix == matrix,
                self.bp_decoder@.config == d.config,
                result.decoding.len() == matrix.cols,
                result.posterior_ratios.len() == matrix.cols,
                detectors.len() == matrix.rows,
                t.last == self.bp_decoder@,
                t.legs.len() == set + 1,
                keeps(legs@, t.legs),
                num_conv == successes(t.legs),
                num_conv <= set + 1,
                total == total_iterations(t.legs),
                total <= pre_iter + set * set_max_iter,
                0 <= best_leg(t.legs) < t.legs.len(),
                result@ == (ResultModel {
                    iterations: result@.iterations,
                    ..t.legs[best_leg(t.legs)]
                }),
                result.success ==> matrix.mul_mod2(result.decoding@) == detectors@,
                result.extra is NoExtra,
                all == (if done {
                    t
                } else {
                    config.legs_from(draws@, coins@, detectors@, t, (set + 1) as nat)
                }),
            decreases num_sets - set + (if done {
                0int
            } else {
                1
            }),
        {
            set += 1;
            let ghost before = self.bp_decoder@;
            let gammas: Vec<i64> = self.gammas_of(draws, set);
            self.bp_decoder.set_memory_strengths_fixed(gammas);
            self.bp_decoder.current_iteration = 0;
            self.bp_decoder.initialize_check_to_variable();
            self.bp_decoder.initialize_variable_to_check();
            assert(self.bp_decoder@ == config.leg_start(draws@, before, set as nat));
            let leg: DecodeResult = if set < coins.len() {
                self.decode_inner(detectors, &coins[set], set_max_iter)
            } else {
                self.decode_inner(detectors, &none, set_max_iter)
            };
            let ghost next = config.leg_added(draws@, coins@, detectors@, t, set as nat);
            legs.push(
                RelayLeg {
                    iterations: leg.iterations,
                    converged: leg.success,
                    quality: leg.decoding_quality,
                },
            );
            proof {
                assert(next.legs.drop_last() =~= t.legs);
                assert(next.legs.last() == leg@);
                assert(set * set_max_iter == (set - 1) * set_max_iter + set_max_iter)
                    by (nonlinear_arith);
                assert(set * set_max_iter <= num_sets * set_max_iter) by (nonlinear_arith)
                    requires
                        set <= num_sets,
                ;
                assert(keeps(legs@, next.legs));
                t = next;
            }
            total = total + leg.iterations;
            if leg.success {
                num_conv = num_conv + 1;
                done = match stopping_criterion {
                    StoppingCriterion::NConv { stop_after } => num_conv >= stop_after,
                    _ => false,
                };
                if leg.decoding_quality < result.decoding_quality {
                    result = leg;
                }
            }
        }
        self.legs = legs;
        result.iterations = total;
        result
    }

    /// The leg of least weight, if exactly one leg that converged has it.
    pub fn unique_best_leg(&self) -> (r: Option<usize>)
        ensures
            r matches Some(b) ==> b < self.legs.len() && is_unique_best(self.legs@, b as int),
            r is None ==> forall|b: int| 0 <= b < self.legs.len() ==> !is_unique_best(self.legs@, b),
    {
        let mut best: usize = 0;
        let mut count: usize = 0;
        let mut l: usize = 0;
        while l < self.legs.len()
            invariant
                l <= self.legs.len(),
                count <= l,
                count == 0 ==> forall|k: int| 0 <= k < l ==> !(#[trigger] self.legs[k]).converged,
                count > 0 ==> best < l && self.legs[best as int].converged && forall|k: int|
                    0 <= k < l && (#[trigger] self.legs[k]).converged ==> self.legs[k].quality
                        >= self.legs[best as int].quality,
                count == 1 ==> forall|k: int|
                    0 <= k < l && k != best && (#[trigger] self.legs[k]).converged
                        ==> self.legs[k].quality > self.legs[best as int].quality,
                count > 1 ==> exists|k: int|
                    0 <= k < l && k != best && (#[trigger] self.legs[k]).converged
                        && self.legs[k].quality == self.legs[best as int].quality,
            decreases self.legs.len() - l,
        {
            if self.legs[l].converged {
                if count == 0 || self.legs[l].quality < self.legs[best].quality {
                    best = l;
                    count = 1;
                } else if self.legs[l].quality == self.legs[best].quality {
                    assert(self.legs[l as int].converged);
                    count = count + 1;
                }
            }
            l += 1;
        }
        if count == 1 {
            Some(best)
        } else {
            proof {
                assert forall|b: int|
                    0 <= b < self.legs.len() implies !is_unique_best(self.legs@, b) by {
                    if count > 1 && is_unique_best(self.legs@, b) {
                        let k = choose|k: int|
                            0 <= k < l && k != best && (#[trigger] self.legs[k]).converged
                                && self.legs[k].quality == self.legs[best as int].quality;
                        assert(self.legs@[k].converged);
                        assert(self.legs@[best as int].converged);
                    }
                }
            }
            None
        }
    }
}

/// Leg `b` converged and every other leg that converged weighs more.
pub open spec fn is_unique_best(legs: Seq<RelayLeg>, b: int) -> bool {
    &&& legs[b].converged
    &&& forall|k: int|
        0 <= k < legs.len() && k != b && (#[trigger] legs[k]).converged ==> legs[k].quality
            > legs[b].quality
}

/// A relay decoder together with what was drawn for it.
#[derive(Clone, Debug)]
pub struct DrawnRelayDecoder {
    pub relay: RelayDecoder,
    /// What was drawn for each decoding to come.
    pub supply: Vec<LegsDrawn<RelayDraws>>,
}

/// What such a decoder holds.
#[verifier::ext_equal]
pub struct DrawnRelayModel {
    pub config: RelayDecoderConfig,
    pub bp: BpModel,
    pub supply: Seq<LegsDrawn<RelayDraws>>,
}

impl DrawnRelayModel {
    /// The legs of decoding `det`.
    pub open spec fn run(self, det: Seq<Bit>) -> RelayTrace {
        self.config.run(self.supply[0].draws@, self.supply[0].coins@, det, self.bp)
    }
}

impl Decoder for DrawnRelayDecoder {
    type M = DrawnRelayModel;

    open spec fn model(&self) -> DrawnRelayModel {
        DrawnRelayModel {
            config: self.relay.relay_config,
            bp: self.relay.bp_decoder@,
            supply: self.supply@,
        }
    }

    open spec fn ready(m: DrawnRelayModel) -> bool {
        &&& m.bp.wf()
        &&& m.config.wf(m.bp.cols())
        &&& forall|k: int|
            0 <= k < m.supply.len() ==> m.config.supplied(
                (#[trigger] m.supply[k]).draws@,
                m.bp.cols(),
            )
    }

    open spec fn code(m: DrawnRelayModel) -> MatrixModel {
        m.bp.matrix
    }

    open spec fn weights(m: DrawnRelayModel) -> Seq<i64> {
        m.bp.config.priors
    }

    open spec fn outcome(m: DrawnRelayModel, det: Seq<Bit>) -> ResultModel {
        relayed(m.run(det).legs)
    }

    open spec fn noted(m: DrawnRelayModel, det: Seq<Bit>, extra: BPExtraResult) -> bool {
        extra is NoExtra
    }

    open spec fn next(m: DrawnRelayModel, det: Seq<Bit>) -> DrawnRelayModel {
        DrawnRelayModel { bp: m.run(det).last, supply: m.supply.skip(1), ..m }
    }

    open spec fn lasts(m: DrawnRelayModel, n: nat) -> bool {
        m.supply.len() >= n
    }

    proof fn lemma_ready(m: DrawnRelayModel) {
    }

    proof fn lemma_lasts(m: DrawnRelayModel, det: Seq<Bit>, n: nat) {
    }

    fn can_decode(&self, n: usize) -> (r: bool) {
        self.supply.len() >= n
    }

    fn check_matrix(&self) -> (r: &SparseBitMatrix) {
        &self.relay.bp_decoder.check_matrix
    }

    fn log_prior_ratios(&self) -> (r: Vec<i64>) {
        self.relay.bp_decoder.config.log_prior_ratios.clone()
    }

    fn decode_detailed(&mut self, detectors: &Vec<Bit>) -> (r: DecodeResult) {
        let ghost m = self.model();
        assert(m.config.supplied(m.supply[0].draws@, m.bp.cols()));
        let own: LegsDrawn<RelayDraws> = self.supply.remove(0);
        let r = self.relay.decode_detailed(detectors, &own.draws, &own.coins);
        assert(self.model() =~= Self::next(m, detectors@));
        assert(Self::noted(m, detectors@, r.extra));
        r
    }
}

} // verus!
