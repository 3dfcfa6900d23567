//! Belief propagation in legs with posteriors that are kept away from zero.

use vstd::prelude::*;

use crate::arith::{abs, lemma_product_bound, magnitude};
use crate::decoder::{
    consistent, lemma_legs_push, BPExtraResult, DecodeResult, Decoder, LegTrace, LegsDrawn,
    LegsModel, ResultModel,
};
use crate::matrix::{Bit, MatrixModel, SparseBitMatrix};
use crate::min_sum::{coins_at, is_gain, BpModel, MinSumBPDecoder, MinSumDecoderConfig};
use crate::relay::{
    all_consistent, are_gains, best_leg, leg_coins, lemma_best_leg, lemma_lightest,
    lemma_result_weight, lemma_successes, lightest, successes, total_iterations, weighed,
};

verus! {

/// How the sign of a clipped posterior is found.
#[derive(Clone, Copy, Debug, PartialEq, Eq, Structural)]
pub enum SignUpdateMode {
    /// The sign of the posterior; that of the clipped one before where it is zero.
    Naive,
    /// The sign that the posterior last had beyond the least magnitude.
    Hysteresis,
    /// The sign of the posterior with the share of memory taken out.
    NeighborOnly,
}

/// The parameters of a decoder with clipped posteriors.
#[derive(Clone, Copy, Debug)]
pub struct ClipBpConfig {
    /// The least magnitude of a clipped posterior; its sign does not count.
    pub min_llr: i64,
    pub sign_mode: SignUpdateMode,
    /// The memory strength of the first leg.
    pub gamma_first: i64,
    /// The most legs; the first leg is always run.
    pub max_legs: usize,
    /// The most iterations of the first leg.
    pub max_iter_first: usize,
    /// The most iterations of each other leg.
    pub max_iter: usize,
    /// The number of legs that converged after which no other is run.
    pub max_solutions: usize,
}

/// The state of a leg.
#[verifier::ext_equal]
pub struct ClipState {
    pub bp: BpModel,
    pub gammas: Seq<i64>,
    /// The clipped posteriors of the iteration before.
    pub previous: Seq<i64>,
    /// Whether the sign held for each variable is positive.
    pub latch: Seq<bool>,
}

/// The legs that were run and the state after the last.
#[verifier::ext_equal]
pub struct ClipTrace {
    pub legs: Seq<ResultModel>,
    pub last: ClipState,
}

/// The sign held for a variable, positive or not, after the posterior `m`.
pub open spec fn latched(held: bool, m: int, least: int) -> bool {
    if m > least {
        true
    } else if m < -least {
        false
    } else {
        held
    }
}

/// The magnitude `m`, at least `least`, with the given sign.
pub open spec fn clipped(positive: bool, m: int, least: int) -> int {
    let size = if abs(m) > least {
        abs(m)
    } else {
        least
    };
    if positive {
        size
    } else {
        -size
    }
}

impl ClipBpConfig {
    /// The parameters are in range.
    pub open spec fn wf(self) -> bool {
        &&& self.min_llr > i64::MIN
        &&& is_gain(self.gamma_first)
        &&& self.max_legs < usize::MAX
        &&& self.max_iter_first + self.max_legs * self.max_iter <= usize::MAX
    }

    /// The number of legs that may be run.
    pub open spec fn leg_limit(self) -> nat {
        if self.max_legs == 0 {
            1
        } else {
            self.max_legs as nat
        }
    }

    /// What was drawn suffices for all legs.
    pub open spec fn supplied(self, draws: Seq<Vec<i64>>, cols: nat) -> bool {
        &&& draws.len() + 1 >= self.leg_limit()
        &&& forall|l: int| 0 <= l < self.leg_limit() - 1 ==> are_gains(#[trigger] draws[l]@, cols)
    }

    /// The signs held after the posteriors of `b`.
    pub open spec fn latches(self, s: ClipState, b: BpModel) -> Seq<bool> {
        if self.sign_mode is Hysteresis {
            Seq::new(
                b.cols(),
                |v: int| latched(s.latch[v], b.posterior[v] as int, abs(self.min_llr as int)),
            )
        } else {
            s.latch
        }
    }

    /// Whether the clipped posterior of variable `v` is positive after the posteriors of `b`.
    pub open spec fn positive(self, s: ClipState, b: BpModel, v: int) -> bool {
        let m = b.posterior[v] as int;
        match self.sign_mode {
            SignUpdateMode::Naive => m > 0 || (m == 0 && s.previous[v] >= 0),
            SignUpdateMode::Hysteresis => latched(s.latch[v], m, abs(self.min_llr as int)),
            SignUpdateMode::NeighborOnly => m * b.config.one() + s.gammas[v] * (b.config.priors[v]
                - s.previous[v]) >= 0,
        }
    }

    /// The clipped posteriors of `b`.
    pub open spec fn clips(self, s: ClipState, b: BpModel) -> Seq<i64> {
        Seq::new(
            b.cols(),
            |v: int|
                clipped(
                    self.positive(s, b, v),
                    b.posterior[v] as int,
                    abs(self.min_llr as int),
                ) as i64,
        )
    }

    /// One iteration, after which the clipped posteriors take the place of the others.
    pub open spec fn step(self, s: ClipState, det: Seq<Bit>, coins: Seq<bool>) -> ClipState {
        let b = s.bp.iterate(det, coins).counted();
        let clips = self.clips(s, b);
        ClipState {
            bp: BpModel { posterior: clips, ..b },
            gammas: s.gammas,
            previous: clips,
            latch: self.latches(s, b),
        }
    }

    /// Iterating until the decoding explains the detectors, `n` times at most.
    pub open spec fn run(
        self,
        s: ClipState,
        det: Seq<Bit>,
        coins: Seq<Vec<bool>>,
        n: nat,
    ) -> ClipState
        decreases n,
    {
        if n == 0 {
            s
        } else {
            let next = self.step(s, det, coins_at(coins, s.bp.iteration as int));
            if next.bp.converged(det) {
                next
            } else {
                self.run(next, det, coins, (n - 1) as nat)
            }
        }
    }

    /// The state after a leg of at most `n` iterations that starts from `s`.
    pub open spec fn leg(
        self,
        s: ClipState,
        det: Seq<Bit>,
        coins: Seq<Vec<bool>>,
        n: nat,
    ) -> ClipState {
        let start = ClipState { latch: Seq::new(s.bp.cols(), |v: int| true), ..s };
        self.run(start, det, coins, n)
    }

    /// The result of such a leg.
    pub open spec fn leg_result(
        self,
        s: ClipState,
        det: Seq<Bit>,
        coins: Seq<Vec<bool>>,
        n: nat,
    ) -> ResultModel {
        let last = self.leg(s, det, coins, n).bp;
        last.result(last.converged(det), last.decoded_detectors(), n)
    }

    /// The first leg of a decoder in the state `d`.
    pub open spec fn first_leg(
        self,
        coins: Seq<Vec<Vec<bool>>>,
        det: Seq<Bit>,
        d: BpModel,
    ) -> ClipTrace {
        let gammas = Seq::new(d.cols(), |v: int| self.gamma_first);
        let s = ClipState {
            bp: BpModel { memory: gammas, ..d.initialized() },
            gammas,
            previous: d.config.priors,
            latch: Seq::new(d.cols(), |v: int| true),
        };
        let n = self.max_iter_first as nat;
        ClipTrace {
            legs: seq![self.leg_result(s, det, leg_coins(coins, 0), n)],
            last: self.leg(s, det, leg_coins(coins, 0), n),
        }
    }

    /// Leg `l` starts: new memory strengths, the messages at their start and the posteriors
    /// handed on.
    pub open spec fn leg_start(self, draws: Seq<Vec<i64>>, s: ClipState, l: int) -> ClipState {
        let gammas = draws[l - 1]@;
        ClipState {
            bp: BpModel { memory: gammas, iteration: 0, ..s.bp }.checks_silent()
                .variables_at_prior(),
            gammas,
            ..s
        }
    }

    /// The trace with leg `l` added.
    pub open spec fn leg_added(
        self,
        draws: Seq<Vec<i64>>,
        coins: Seq<Vec<Vec<bool>>>,
        det: Seq<Bit>,
        t: ClipTrace,
        l: nat,
    ) -> ClipTrace {
        let s = self.leg_start(draws, t.last, l as int);
        let n = self.max_iter as nat;
        ClipTrace {
            legs: t.legs.push(self.leg_result(s, det, leg_coins(coins, l as int), n)),
            last: self.leg(s, det, leg_coins(coins, l as int), n),
        }
    }

    /// Running the legs from `l` on, until enough have converged.
    pub open spec fn legs_from(
        self,
        draws: Seq<Vec<i64>>,
        coins: Seq<Vec<Vec<bool>>>,
        det: Seq<Bit>,
        t: ClipTrace,
        l: nat,
    ) -> ClipTrace
        decreases self.leg_limit() - l,
    {
        if l >= self.leg_limit() || successes(t.legs) >= self.max_solutions {
            t
        } else {
            self.legs_from(draws, coins, det, self.leg_added(draws, coins, det, t, l), l + 1)
        }
    }

    /// All legs of a decoder in the state `d`.
    pub open spec fn legs(
        self,
        draws: Seq<Vec<i64>>,
        coins: Seq<Vec<Vec<bool>>>,
        det: Seq<Bit>,
        d: BpModel,
    ) -> ClipTrace {
        self.legs_from(draws, coins, det, self.first_leg(coins, det, d), 1)
    }
}

/// A leg keeps the code and the number of bits.
proof fn lemma_run_keeps(
    config: ClipBpConfig,
    s: ClipState,
    det: Seq<Bit>,
    coins: Seq<Vec<bool>>,
    n: nat,
)
    requires
        s.bp.decoding.len() == s.bp.cols(),
    ensures
        config.run(s, det, coins, n).bp.matrix == s.bp.matrix,
        config.run(s, det, coins, n).bp.config == s.bp.config,
        config.run(s, det, coins, n).bp.decoding.len() == s.bp.cols(),
    decreases n,
{
    if n > 0 {
        let next = config.step(s, det, coins_at(coins, s.bp.iteration as int));
        if !next.bp.converged(det) {
            lemma_run_keeps(config, next, det, coins, (n - 1) as nat);
        }
    }
}

proof fn lemma_leg_weight(
    config: ClipBpConfig,
    s: ClipState,
    det: Seq<Bit>,
    coins: Seq<Vec<bool>>,
    n: nat,
)
    requires
        s.bp.decoding.len() == s.bp.cols(),
        s.bp.cols() < usize::MAX,
    ensures
        ({
            let leg = config.leg_result(s, det, coins, n);
            &&& leg.success <==> leg.quality < i128::MAX
            &&& leg.quality <= i128::MAX
            &&& consistent(s.bp.matrix, det, leg)
        }),
        config.leg(s, det, coins, n).bp.matrix == s.bp.matrix,
        config.leg(s, det, coins, n).bp.decoding.len() == s.bp.cols(),
{
    let start = ClipState { latch: Seq::new(s.bp.cols(), |v: int| true), ..s };
    lemma_run_keeps(config, start, det, coins, n);
    let last = config.leg(s, det, coins, n).bp;
    lemma_result_weight(last, last.converged(det), last.decoded_detectors(), n);
}

proof fn lemma_legs_from(
    config: ClipBpConfig,
    draws: Seq<Vec<i64>>,
    coins: Seq<Vec<Vec<bool>>>,
    det: Seq<Bit>,
    t: ClipTrace,
    l: nat,
)
    requires
        t.last.bp.decoding.len() == t.last.bp.cols(),
        t.last.bp.cols() < usize::MAX,
        t.legs.len() > 0,
        weighed(t.legs),
        all_consistent(t.last.bp.matrix, det, t.legs),
    ensures
        ({
            let all = config.legs_from(draws, coins, det, t, l);
            &&& weighed(all.legs)
            &&& all_consistent(t.last.bp.matrix, det, all.legs)
            &&& all.legs.len() > 0
        }),
    decreases config.leg_limit() - l,
{
    if l < config.leg_limit() && successes(t.legs) < config.max_solutions {
        let s = config.leg_start(draws, t.last, l as int);
        let n = config.max_iter as nat;
        lemma_leg_weight(config, s, det, leg_coins(coins, l as int), n);
        let next = config.leg_added(draws, coins, det, t, l);
        assert forall|k: int| 0 <= k < next.legs.len() implies ((#[trigger] next.legs[k]).success
            <==> next.legs[k].quality < i128::MAX) && next.legs[k].quality <= i128::MAX
            && consistent(t.last.bp.matrix, det, next.legs[k]) by {
            if k < t.legs.len() {
                assert(next.legs[k] == t.legs[k]);
            }
        }
        lemma_legs_from(config, draws, coins, det, next, l + 1);
    }
}

/// The result of a decoder with clipped posteriors is consistent. It is a success exactly if
/// some leg is, and no leg weighs less.
pub proof fn law_clip_lightest(
    config: ClipBpConfig,
    draws: Seq<Vec<i64>>,
    coins: Seq<Vec<Vec<bool>>>,
    det: Seq<Bit>,
    d: BpModel,
)
    requires
        d.wf(),
    ensures
        ({
            let legs = config.legs(draws, coins, det, d).legs;
            &&& lightest(legs).success <==> exists|l: int|
                0 <= l < legs.len() && (#[trigger] legs[l]).success
            &&& forall|l: int|
                0 <= l < legs.len() ==> lightest(legs).quality <= (#[trigger] legs[l]).quality
            &&& consistent(d.matrix, det, lightest(legs))
        }),
{
    let first = config.first_leg(coins, det, d);
    let gammas = Seq::new(d.cols(), |v: int| config.gamma_first);
    let s = ClipState {
        bp: BpModel { memory: gammas, ..d.initialized() },
        gammas,
        previous: d.config.priors,
        latch: Seq::new(d.cols(), |v: int| true),
    };
    lemma_leg_weight(config, s, det, leg_coins(coins, 0), config.max_iter_first as nat);
    lemma_legs_from(config, draws, coins, det, first, 1);
    let legs = config.legs(draws, coins, det, d).legs;
    lemma_lightest(legs);
    assert(consistent(d.matrix, det, legs[legs.len() - 1]));
    if successes(legs) > 0 {
        assert(consistent(d.matrix, det, legs[best_leg(legs)]));
    }
}

/// A decoder that runs belief propagation in legs with clipped posteriors.
#[derive(Clone, Debug)]
pub struct ClipBpDecoder {
    pub bp_decoder: MinSumBPDecoder,
    pub clip_config: ClipBpConfig,
    pub current_gammas: Vec<i64>,
    pub m_tilde_prev: Vec<i64>,
    pub hysteresis_latch: Vec<bool>,
}

/// What such a decoder holds.
#[verifier::ext_equal]
pub struct ClipModel {
    pub config: ClipBpConfig,
    pub state: ClipState,
}

impl View for ClipBpDecoder {
    type V = ClipModel;

    open spec fn view(&self) -> ClipModel {
        ClipModel {
            config: self.clip_config,
            state: ClipState {
                bp: self.bp_decoder@,
                gammas: self.current_gammas@,
                previous: self.m_tilde_prev@,
                latch: self.hysteresis_latch@,
            },
        }
    }
}

impl ClipModel {
    /// The parts fit each other.
    pub open spec fn wf(self) -> bool {
        let cols = self.state.bp.cols();
        &&& self.state.bp.wf()
        &&& self.config.wf()
        &&& are_gains(self.state.gammas, cols)
        &&& self.state.previous.len() == cols
        &&& self.state.latch.len() == cols
    }

    /// The legs of decoding `det`.
    pub open spec fn legs(
        self,
        draws: Seq<Vec<i64>>,
        coins: Seq<Vec<Vec<bool>>>,
        det: Seq<Bit>,
    ) -> ClipTrace {
        self.config.legs(draws, coins, det, self.state.bp)
    }
}

impl ClipBpDecoder {
    /// A decoder for the code with check matrix `check_matrix`.
    pub fn new(
        check_matrix: SparseBitMatrix,
        min_sum_config: MinSumDecoderConfig,
        clip_config: ClipBpConfig,
    ) -> (r: Self)
        requires
            check_matrix@.wf(),
            min_sum_config@.wf(check_matrix@.cols),
            clip_config.wf(),
        ensures
            r@.wf(),
            r@.config == clip_config,
            r@.state.bp == BpModel::built(check_matrix@, min_sum_config@),
            r@.state.gammas == Seq::new(check_matrix@.cols, |v: int| 0i64),
            r@.state.previous == Seq::new(check_matrix@.cols, |v: int| 0i64),
            r@.state.latch == Seq::new(check_matrix@.cols, |v: int| true),
    {
        let n: usize = check_matrix.cols;
        let r = ClipBpDecoder {
            bp_decoder: MinSumBPDecoder::new(check_matrix, min_sum_config),
            clip_config,
            current_gammas: vec![0; n],
            m_tilde_prev: vec![0; n],
            hysteresis_latch: vec![true; n],
        };
        proof {
            assert(r@.state.gammas =~= Seq::new(n as nat, |v: int| 0i64));
            assert(r@.state.previous =~= Seq::new(n as nat, |v: int| 0i64));
            assert(r@.state.latch =~= Seq::new(n as nat, |v: int| true));
        }
        r
    }

    /// Whether the clipped posterior of variable `j` is positive. The sign that is held is
    /// renewed.
    fn update_sign(&mut self, j: usize) -> (r: bool)
        requires
            old(self)@.wf(),
            j < old(self)@.state.bp.cols(),
        ensures
            final(self)@ == (ClipModel {
                state: ClipState {
                    latch: if old(self)@.config.sign_mode is Hysteresis {
                        old(self)@.state.latch.update(
                            j as int,
                            latched(
                                old(self)@.state.latch[j as int],
                                old(self)@.state.bp.posterior[j as int] as int,
                                abs(old(self)@.config.min_llr as int),
                            ),
                        )
                    } else {
                        old(self)@.state.latch
                    },
                    ..old(self)@.state
                },
                ..old(self)@
            }),
            r == old(self)@.config.positive(old(self)@.state, old(self)@.state.bp, j as int),
    {
        let m: i64 = self.bp_decoder.posterior_ratios[j];
        let least: i64 = magnitude(self.clip_config.min_llr);
        let ghost before = self@;
        match self.clip_config.sign_mode {
            SignUpdateMode::Naive => m > 0 || (m == 0 && self.m_tilde_prev[j] >= 0),
            SignUpdateMode::Hysteresis => {
                if m > least {
                    self.hysteresis_latch.set(j, true);
                } else if m < -least {
                    self.hysteresis_latch.set(j, false);
                }
                let held: bool = self.hysteresis_latch[j];
                proof {
                    let l = latched(
                        before.state.latch[j as int],
                        m as int,
                        abs(before.config.min_llr as int),
                    );
                    assert(self@.state.latch =~= before.state.latch.update(j as int, l));
                }
                held
            },
            SignUpdateMode::NeighborOnly => {
                let one: i64 = self.bp_decoder.config.unit();
                let gamma: i64 = self.current_gammas[j];
                let prior: i64 = self.bp_decoder.config.log_prior_ratios[j];
                let last: i64 = self.m_tilde_prev[j];
                proof {
                    assert(is_gain(self@.state.gammas[j as int]));
                    lemma_product_bound(
                        m as int,
                        one as int,
                        0x8000_0000_0000_0000,
                        0x2000_0000_0000_0000,
                    );
                    lemma_product_bound(
                        gamma as int,
                        prior - last,
                        0x2000_0000_0000_0000,
                        0x1_0000_0000_0000_0000,
                    );
                }
                let kept: i128 = (m as i128) * (one as i128);
                let away: i128 = (gamma as i128) * ((prior as i128) - (last as i128));
                kept + away >= 0
            },
        }
    }

    /// The clipped posteriors.
    fn compute_clipped(&mut self) -> (r: Vec<i64>)
        requires
            old(self)@.wf(),
        ensures
            final(self)@ == (ClipModel {
                state: ClipState {
                    latch: old(self)@.config.latches(old(self)@.state, old(self)@.state.bp),
                    ..old(self)@.state
                },
                ..old(self)@
            }),
            final(self)@.wf(),
            r@ == old(self)@.config.clips(old(self)@.state, old(self)@.state.bp),
            forall|v: int| 0 <= v < r.len() ==> r[v] > i64::MIN,
    {
        let ghost before = self@;
        let ghost s = self@.state;
        let ghost clips = before.config.clips(s, s.bp);
        let ghost latches = before.config.latches(s, s.bp);
        let n: usize = self.bp_decoder.check_matrix.cols;
        let least: i64 = magnitude(self.clip_config.min_llr);
        let mut out: Vec<i64> = Vec::new();
        let mut j: usize = 0;
        while j < n
            invariant
                before.wf(),
                self@.wf(),
                s == before.state,
                n == s.bp.cols(),
                clips == before.config.clips(s, s.bp),
                latches == before.config.latches(s, s.bp),
                least == abs(before.config.min_llr as int),
                self@ == (ClipModel {
                    state: ClipState { latch: self@.state.latch, ..s },
                    ..before
                }),
                self@.state.latch.len() == n,
                j <= n,
                forall|v: int| 0 <= v < j ==> (#[trigger] self@.state.latch[v]) == latches[v],
                forall|v: int| j <= v < n ==> (#[trigger] self@.state.latch[v]) == s.latch[v],
                out.len() == j,
                forall|v: int| 0 <= v < j ==> (#[trigger] out[v]) == clips[v] && out[v] > i64::MIN,
            decreases n - j,
        {
            let ghost here = self@;
            let positive: bool = self.update_sign(j);
            let m: i64 = magnitude(self.bp_decoder.posterior_ratios[j]);
            let size: i64 = if m > least {
                m
            } else {
                least
            };
            let value: i64 = if positive {
                size
            } else {
                -size
            };
            assert(here.config.positive(here.state, here.state.bp, j as int)
                == before.config.positive(s, s.bp, j as int));
            out.push(value);
            j += 1;
        }
        proof {
            assert(out@ =~= clips);
            assert(self@.state.latch =~= latches);
        }
        out
    }

    /// One leg of at most `max_iter` iterations.
    pub fn run_leg(
        &mut self,
        detectors: &Vec<Bit>,
        coins: &Vec<Vec<bool>>,
        max_iter: usize,
    ) -> (r: DecodeResult)
        requires
            old(self)@.wf(),
            old(self)@.state.bp.iteration == 0,
            detectors.len() == old(self)@.state.bp.matrix.rows,
        ensures
            final(self)@.wf(),
            final(self)@ == (ClipModel {
                state: old(self)@.config.leg(
                    old(self)@.state,
                    detectors@,
                    coins@,
                    max_iter as nat,
                ),
                ..old(self)@
            }),
            final(self)@.state.bp.matrix == old(self)@.state.bp.matrix,
            final(self)@.state.bp.config == old(self)@.state.bp.config,
            r@ == old(self)@.config.leg_result(
                old(self)@.state,
                detectors@,
                coins@,
                max_iter as nat,
            ),
            r.iterations <= max_iter,
            r.decoding.len() == old(self)@.state.bp.cols(),
            r.posterior_ratios.len() == old(self)@.state.bp.cols(),
            r.success ==> old(self)@.state.bp.matrix.mul_mod2(r.decoding@) == detectors@,
    {
        let ghost before = self@;
        let ghost config = self@.config;
        let ghost d = self@.state.bp;
        let ghost all = config.leg(self@.state, detectors@, coins@, max_iter as nat);
        let none: Vec<bool> = Vec::new();
        self.hysteresis_latch = vec![true; self.bp_decoder.check_matrix.cols];
        assert(self@.state.latch =~= Seq::new(d.cols(), |v: int| true));
        let mut success: bool = false;
        let mut decoded_detectors: Vec<Bit> = self.bp_decoder.compute_decoded_detectors();
        let mut i: usize = 0;
        while i < max_iter && !success
            invariant
                self@.wf(),
                config == before.config,
                self@ == (ClipModel { state: self@.state, ..before }),
                self@.state.bp.matrix == d.matrix,
                self@.state.bp.config == d.config,
                detectors.len() == d.matrix.rows,
                i <= max_iter,
                self@.state.bp.iteration == i,
                none.len() == 0,
                decoded_detectors@ == self@.state.bp.decoded_detectors(),
                i == 0 ==> !success,
                i > 0 ==> success == self@.state.bp.converged(detectors@),
                all == (if success {
                    self@.state
                } else {
                    config.run(self@.state, detectors@, coins@, (max_iter - i) as nat)
                }),
            decreases max_iter - i + (if success {
                0int
            } else {
                1
            }),
        {
            let ghost here = self@.state;
            if i < coins.len() {
                self.bp_decoder.run_iteration(detectors, &coins[i]);
            } else {
                assert(none@ =~= Seq::empty());
                self.bp_decoder.run_iteration(detectors, &none);
            }
            self.bp_decoder.current_iteration = self.bp_decoder.current_iteration + 1;
            decoded_detectors = self.bp_decoder.compute_decoded_detectors();
            success = self.bp_decoder.check_convergence(detectors, &decoded_detectors);
            let ghost b = here.bp.iterate(
                detectors@,
                coins_at(coins@, here.bp.iteration as int),
            ).counted();
            assert(self@.state =~= (ClipState { bp: b, ..here }));
            let m_tilde: Vec<i64> = self.compute_clipped();
            proof {
                let mid = ClipState { bp: b, ..here };
                assert(config.clips(mid, b) =~= config.clips(here, b));
                assert(config.latches(mid, b) =~= config.latches(here, b));
            }
            self.m_tilde_prev = m_tilde.clone();
            self.bp_decoder.set_posterior_ratios(m_tilde);
            proof {
                let next = config.step(
                    here,
                    detectors@,
                    coins_at(coins@, here.bp.iteration as int),
                );
                assert(self@.state =~= next);
                assert(next.bp.decoded_detectors() == b.decoded_detectors());
            }
            i += 1;
        }
        if max_iter == 0 {
            success = self.bp_decoder.check_convergence(detectors, &decoded_detectors);
        }
        self.bp_decoder.build_result(success, decoded_detectors, max_iter)
    }

    /// Decodes a syndrome. `draws[l]` holds the memory strengths that were drawn for leg
    /// `l + 1`, and `coins[l]` the draws of leg `l` that count where messages may be dropped.
    #[verifier::rlimit(30)]
    pub fn decode_detailed(
        &mut self,
        detectors: &Vec<Bit>,
        draws: &Vec<Vec<i64>>,
        coins: &Vec<Vec<Vec<bool>>>,
    ) -> (r: DecodeResult)
        requires
            old(self)@.wf(),
            old(self)@.config.supplied(draws@, old(self)@.state.bp.cols()),
            detectors.len() == old(self)@.state.bp.matrix.rows,
        ensures
            final(self)@.wf(),
            ({
                let t = old(self)@.legs(draws@, coins@, detectors@);
                &&& final(self)@ == (ClipModel { state: t.last, ..old(self)@ })
                &&& r@ == lightest(t.legs)
                &&& r.extra matches BPExtraResult::RelayTrace(e) && e@ == LegsModel::of(t.legs)
            }),
            final(self)@.state.bp.matrix == old(self)@.state.bp.matrix,
            final(self)@.state.bp.config == old(self)@.state.bp.config,
            r.decoding.len() == old(self)@.state.bp.cols(),
            r.posterior_ratios.len() == old(self)@.state.bp.cols(),
            r.success ==> old(self)@.state.bp.matrix.mul_mod2(r.decoding@) == detectors@,
    {
        let ghost before = self@;
        let ghost config = self@.config;
        let ghost d = self@.state.bp;
        let ghost all = before.legs(draws@, coins@, detectors@);
        let n: usize = self.bp_decoder.check_matrix.cols;
        let max_legs: usize = if self.clip_config.max_legs == 0 {
            1
        } else {
            self.clip_config.max_legs
        };
        let max_iter: usize = self.clip_config.max_iter;
        let max_iter_first: usize = self.clip_config.max_iter_first;
        let max_solutions: usize = self.clip_config.max_solutions;
        let none: Vec<Vec<bool>> = Vec::new();
        assert(none@ =~= Seq::empty());
        self.bp_decoder.initialize_decoder();
        let first_gammas: Vec<i64> = vec![self.clip_config.gamma_first; n];
        self.current_gammas = first_gammas.clone();
        self.bp_decoder.set_memory_strengths_fixed(first_gammas);
        self.m_tilde_prev = self.bp_decoder.config.log_prior_ratios.clone();
        let ghost begun = self@.state;
        let ghost start = ClipState {
            bp: BpModel {
                memory: Seq::new(d.cols(), |v: int| config.gamma_first),
                ..d.initialized()
            },
            gammas: Seq::new(d.cols(), |v: int| config.gamma_first),
            previous: d.config.priors,
            latch: Seq::new(d.cols(), |v: int| true),
        };
        proof {
            assert(begun =~= (ClipState { latch: before.state.latch, ..start }));
            assert((ClipState { latch: Seq::new(d.cols(), |v: int| true), ..begun }) =~= start);
        }
        let result: DecodeResult = if coins.len() > 0 {
            self.run_leg(detectors, &coins[0], max_iter_first)
        } else {
            self.run_leg(detectors, &none, max_iter_first)
        };
        let ghost mut t = config.first_leg(coins@, detectors@, d);
        proof {
            assert(t.last == self@.state);
            assert(t.legs[0] == result@);
            lemma_leg_weight(
                config,
                start,
                detectors@,
                leg_coins(coins@, 0),
                max_iter_first as nat,
            );
            assert(t.legs.drop_last() =~= Seq::empty());
            reveal_with_fuel(successes, 2);
            reveal_with_fuel(total_iterations, 2);
            reveal_with_fuel(LegsModel::of, 2);
        }
        let mut trace: LegTrace = LegTrace::new();
        trace.record(&result);
        let mut total: usize = result.iterations;
        let mut num_solutions: usize = if result.success {
            1
        } else {
            0
        };
        let mut chosen: DecodeResult = result;
        let mut leg: usize = 1;
        while leg < max_legs && num_solutions < max_solutions
            invariant
                self@.wf(),
                config == before.config,
                config.wf(),
                config.supplied(draws@, d.cols()),
                self@.config == config,
                max_legs == config.leg_limit(),
                max_iter == config.max_iter,
                max_iter_first == config.max_iter_first,
                max_solutions == config.max_solutions,
                none@ == Seq::<Vec<bool>>::empty(),
                detectors.len() == d.matrix.rows,
                d.cols() < usize::MAX,
                self@.state.bp.matrix == d.matrix,
                self@.state.bp.config == d.config,
                t.last == self@.state,
                1 <= leg <= max_legs,
                t.legs.len() == leg,
                weighed(t.legs),
                trace@ == LegsModel::of(t.legs),
                num_solutions == successes(t.legs),
                num_solutions <= leg,
                total == total_iterations(t.legs),
                total <= max_iter_first + (leg - 1) * max_iter,
                chosen@ == (ResultModel {
                    iterations: chosen@.iterations,
                    ..lightest(t.legs)
                }),
                chosen.success ==> d.matrix.mul_mod2(chosen.decoding@) == detectors@,
                chosen.decoding.len() == d.cols(),
                chosen.posterior_ratios.len() == d.cols(),
                all == config.legs_from(draws@, coins@, detectors@, t, leg as nat),
            decreases max_legs - leg,
        {
            let ghost here = self@.state;
            assert(are_gains(draws@[leg - 1]@, d.cols()));
            let gammas: Vec<i64> = draws[leg - 1].clone();
            self.current_gammas = gammas.clone();
            self.bp_decoder.set_memory_strengths_fixed(gammas);
            self.bp_decoder.current_iteration = 0;
            self.bp_decoder.initialize_check_to_variable();
            self.bp_decoder.initialize_variable_to_check();
            let ghost started = config.leg_start(draws@, here, leg as int);
            assert(self@.state =~= started);
            let result: DecodeResult = if leg < coins.len() {
                self.run_leg(detectors, &coins[leg], max_iter)
            } else {
                self.run_leg(detectors, &none, max_iter)
            };
            trace.record(&result);
            let ghost next = config.leg_added(draws@, coins@, detectors@, t, leg as nat);
            proof {
                lemma_leg_weight(
                    config,
                    started,
                    detectors@,
                    leg_coins(coins@, leg as int),
                    max_iter as nat,
                );
                lemma_legs_push(t.legs, result@);
                assert(next.legs.drop_last() =~= t.legs);
                assert(next.legs.last() == result@);
                assert forall|k: int| 0 <= k < next.legs.len() implies ((
                #[trigger] next.legs[k]).success <==> next.legs[k].quality < i128::MAX)
                    && next.legs[k].quality <= i128::MAX by {
                    if k < t.legs.len() {
                        assert(next.legs[k] == t.legs[k]);
                    }
                }
                lemma_lightest(t.legs);
                lemma_successes(t.legs);
                lemma_best_leg(t.legs);
                assert(leg * max_iter == (leg - 1) * max_iter + max_iter) by (nonlinear_arith);
                assert(leg * max_iter <= config.max_legs * max_iter) by (nonlinear_arith)
                    requires
                        leg <= config.max_legs,
                ;
            }
            total = total + result.iterations;
            let better: bool = result.success && (!chosen.success || result.decoding_quality
                < chosen.decoding_quality);
            if result.success {
                num_solutions = num_solutions + 1;
            }
            if better || (!result.success && !chosen.success) {
                chosen = result;
            }
            proof {
                let b = best_leg(t.legs);
                assert(t.legs[b] == next.legs[b]);
                t = next;
            }
            leg += 1;
        }
        chosen.iterations = total;
        chosen.extra = BPExtraResult::RelayTrace(trace);
        assert(chosen@ =~= lightest(t.legs));
        chosen
    }
}

/// A decoder with clipped posteriors together with what was drawn for it.
#[derive(Clone, Debug)]
pub struct DrawnClipDecoder {
    pub clip: ClipBpDecoder,
    /// What was drawn for each decoding to come.
    pub supply: Vec<LegsDrawn<Vec<i64>>>,
}

/// What such a decoder holds.
#[verifier::ext_equal]
pub struct DrawnClipModel {
    pub clip: ClipModel,
    pub supply: Seq<LegsDrawn<Vec<i64>>>,
}

impl DrawnClipModel {
    /// The legs of decoding `det`.
    pub open spec fn legs(self, det: Seq<Bit>) -> ClipTrace {
        self.clip.legs(self.supply[0].draws@, self.supply[0].coins@, det)
    }
}

impl Decoder for DrawnClipDecoder {
    type M = DrawnClipModel;

    open spec fn model(&self) -> DrawnClipModel {
        DrawnClipModel { clip: self.clip@, supply: self.supply@ }
    }

    open spec fn ready(m: DrawnClipModel) -> bool {
        &&& m.clip.wf()
        &&& forall|k: int|
            0 <= k < m.supply.len() ==> m.clip.config.supplied(
                (#[trigger] m.supply[k]).draws@,
                m.clip.state.bp.cols(),
            )
    }

    open spec fn code(m: DrawnClipModel) -> MatrixModel {
        m.clip.state.bp.matrix
    }

    open spec fn weights(m: DrawnClipModel) -> Seq<i64> {
        m.clip.state.bp.config.priors
    }

    open spec fn outcome(m: DrawnClipModel, det: Seq<Bit>) -> ResultModel {
        lightest(m.legs(det).legs)
    }

    open spec fn noted(m: DrawnClipModel, det: Seq<Bit>, extra: BPExtraResult) -> bool {
        extra matches BPExtraResult::RelayTrace(t) && t@ == LegsModel::of(m.legs(det).legs)
    }

    open spec fn next(m: DrawnClipModel, det: Seq<Bit>) -> DrawnClipModel {
        DrawnClipModel {
            clip: ClipModel { state: m.legs(det).last, ..m.clip },
            supply: m.supply.skip(1),
        }
    }

    open spec fn lasts(m: DrawnClipModel, n: nat) -> bool {
        m.supply.len() >= n
    }

    proof fn lemma_ready(m: DrawnClipModel) {
    }

    proof fn lemma_lasts(m: DrawnClipModel, det: Seq<Bit>, n: nat) {
    }

    fn can_decode(&self, n: usize) -> (r: bool) {
        self.supply.len() >= n
    }

    fn check_matrix(&self) -> (r: &SparseBitMatrix) {
        &self.clip.bp_decoder.check_matrix
    }

    fn log_prior_ratios(&self) -> (r: Vec<i64>) {
        self.clip.bp_decoder.config.log_prior_ratios.clone()
    }

    fn decode_detailed(&mut self, detectors: &Vec<Bit>) -> (r: DecodeResult) {
        let ghost m = self.model();
        assert(m.clip.config.supplied(m.supply[0].draws@, m.clip.state.bp.cols()));
        let own: LegsDrawn<Vec<i64>> = self.supply.remove(0);
        let r = self.clip.decode_detailed(detectors, &own.draws, &own.coins);
        assert(self.model() =~= Self::next(m, detectors@));
        assert(Self::noted(m, detectors@, r.extra));
        r
    }
}

} // verus!
