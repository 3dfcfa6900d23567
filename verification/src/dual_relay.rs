//! Belief propagation in legs that try several memory strengths in every iteration.

use vstd::prelude::*;

use crate::arith::{
    abs, blend, blend_ratios, bound, divide, lemma_product_bound, narrow, sum, trunc_div,
    GAIN_LIMIT,
};
use crate::decoder::{
    consistent, decoding_quality, lemma_legs_push, same_bits, zero_bits, BPExtraResult,
    DecodeResult, Decoder, LegTrace, LegsModel, ResultModel,
};
use crate::ensemble_decoder::bit_rows;
use crate::matrix::{Bit, MatrixModel, SparseBitMatrix};
use crate::min_sum::{
    bound_all, hard_decision, is_gain, BpModel, ConfigModel, MinSumBPDecoder, MinSumDecoderConfig,
};
use crate::order::{order, sorted_indices, Key};
use crate::relay::{
    all_consistent, are_gains, best_leg, lemma_best_leg, lemma_lightest, lemma_result_weight,
    lemma_successes, lightest, successes, total_iterations, weighed, StoppingCriterion,
};

verus! {

/// How two posteriors are mixed where neither explains the detectors.
#[derive(Clone, Copy, Debug, PartialEq, Eq, Structural)]
pub enum DualRelayMixMode {
    /// By their weighted average.
    NaiveAverage,
    /// By their weighted average where their signs agree, else by adding the fast one.
    WeightedFast,
}

/// The parameters of a dual relay decoder.
#[derive(Clone, Debug)]
pub struct DualRelayDecoderConfig {
    /// The most iterations of the first leg; at least one is done.
    pub pre_iter: usize,
    /// The most legs; at least one is run.
    pub maximum_leg: usize,
    /// The most iterations of each leg after the first; at least one is done.
    pub iteration_per_leg: usize,
    /// The slow memory strength of the first leg.
    pub initial_gamma_slow: i64,
    /// The fast memory strength of the first leg.
    pub initial_gamma_fast: i64,
    pub mix_mode: DualRelayMixMode,
    /// The share of the fast posterior in an average.
    pub eta: i64,
    /// The factor of a fast posterior that is added.
    pub delta: i64,
    /// Whether the messages of the iteration before count too.
    pub use_previous_message: bool,
    /// The factor of these messages.
    pub beta: i64,
    /// Whether an ensemble of memory strengths is tried in place of a slow and a fast one.
    pub ensemble_mode: bool,
    /// The size of the ensemble; at least one.
    pub ensemble_size: usize,
    /// The size of the ensemble in the first leg; at least one.
    pub num_pre_iteration_instance: usize,
    /// The memory strengths of the ensemble in the first leg; the last one stays. The slow
    /// one counts if there are none.
    pub initial_gamma: Vec<i64>,
    /// The number of distinct solutions after which no leg is run; at least one.
    pub n_solutions: usize,
    pub stopping_criterion: StoppingCriterion,
}

impl DualRelayDecoderConfig {
    /// The parameters that a decoder starts from, where the unit is `one`.
    pub fn with_unit(one: i64) -> (r: Self)
        requires
            1 <= one <= GAIN_LIMIT,
        ensures
            r.wf(),
            r.pre_iter == 80,
            r.maximum_leg == 100,
            r.iteration_per_leg == 60,
            r.initial_gamma_slow == one / 8,
            r.initial_gamma_fast == one / 8,
            r.mix_mode is NaiveAverage,
            r.eta == one / 2,
            r.delta == one,
            !r.use_previous_message,
            r.beta == 0,
            !r.ensemble_mode,
            r.ensemble_size == 2,
            r.num_pre_iteration_instance == 1,
            r.initial_gamma@ == seq![(one / 8) as i64],
            r.n_solutions == 1,
            r.stopping_criterion == (StoppingCriterion::NConv { stop_after: 1 }),
    {
        let eighth: i64 = one / 8;
        let mut initial_gamma: Vec<i64> = Vec::new();
        initial_gamma.push(eighth);
        let r = DualRelayDecoderConfig {
            pre_iter: 80,
            maximum_leg: 100,
            iteration_per_leg: 60,
            initial_gamma_slow: eighth,
            initial_gamma_fast: eighth,
            mix_mode: DualRelayMixMode::NaiveAverage,
            eta: one / 2,
            delta: one,
            use_previous_message: false,
            beta: 0,
            ensemble_mode: false,
            ensemble_size: 2,
            num_pre_iteration_instance: 1,
            initial_gamma,
            n_solutions: 1,
            stopping_criterion: StoppingCriterion::NConv { stop_after: 1 },
        };
        assert(r.initial_gamma@ =~= seq![eighth]);
        r
    }
}

/// What was drawn for one leg after the first.
#[derive(Clone, Debug)]
pub struct DualRelayDraws {
    /// A slow memory strength for each variable.
    pub gammas_slow: Vec<i64>,
    /// A fast memory strength for each variable.
    pub gammas_fast: Vec<i64>,
    /// The memory strengths of the ensemble in each iteration.
    pub ensemble_gammas: Vec<Vec<i64>>,
}

/// How often each way to the next posteriors was taken.
#[derive(Clone, Copy, Debug, PartialEq, Eq, Structural)]
pub struct DualCounts {
    pub slow_success_count: usize,
    pub fast_success_count: usize,
    pub joint_success_count: usize,
    pub naive_average_applied_count: usize,
    pub weighted_fast_disagreement_applied_count: usize,
}

/// What a dual relay decoder records.
#[derive(Clone, Debug)]
pub struct DualRelayTrace {
    pub legs: LegTrace,
    pub counts: DualCounts,
    /// The number of distinct decodings of legs that converged.
    pub unique_solution_count: usize,
}

/// The state of a leg.
#[verifier::ext_equal]
pub struct DualState {
    pub bp: BpModel,
    pub decoded: Seq<Bit>,
    pub success: bool,
    pub counts: DualCounts,
}

/// The legs that were run, the distinct solutions found and the state after the last leg.
#[verifier::ext_equal]
pub struct DualRun {
    pub legs: Seq<ResultModel>,
    pub found: Seq<Seq<Bit>>,
    pub last: DualState,
}

/// `n`, at least one.
pub open spec fn positive(n: usize) -> nat {
    if n == 0 {
        1
    } else {
        n as nat
    }
}

/// `n`, at least one.
pub(crate) fn at_least_one(n: usize) -> (r: usize)
    ensures
        r == positive(n),
{
    if n == 0 {
        1
    } else {
        n
    }
}

/// No way was taken yet.
pub open spec fn no_counts() -> DualCounts {
    DualCounts {
        slow_success_count: 0,
        fast_success_count: 0,
        joint_success_count: 0,
        naive_average_applied_count: 0,
        weighted_fast_disagreement_applied_count: 0,
    }
}

/// No way was taken more than `n` times.
pub open spec fn at_most(c: DualCounts, n: int) -> bool {
    &&& c.slow_success_count <= n
    &&& c.fast_success_count <= n
    &&& c.joint_success_count <= n
    &&& c.naive_average_applied_count <= n
    &&& c.weighted_fast_disagreement_applied_count <= n
}

/// The keys by which values are put in order.
pub open spec fn value_keys(values: Seq<i64>) -> Seq<Key> {
    Seq::new(values.len(), |i: int| (values[i] as i128, 0i128))
}

/// The median of values: the middle one in their order, or half the sum of the middle two.
pub open spec fn median(values: Seq<i64>) -> int {
    let places = order(value_keys(values));
    let mid = (values.len() / 2) as int;
    if values.len() % 2 == 1 {
        values[places[mid] as int] as int
    } else {
        trunc_div(values[places[mid - 1] as int] + values[places[mid] as int], 2)
    }
}

/// Column `v` of `rows`.
pub open spec fn column(rows: Seq<Seq<i64>>, v: int) -> Seq<i64> {
    Seq::new(rows.len(), |i: int| rows[i][v])
}

/// The median of each column of `rows`.
pub open spec fn medians(rows: Seq<Seq<i64>>, cols: nat) -> Seq<i64> {
    Seq::new(cols, |v: int| median(column(rows, v)) as i64)
}

impl BpModel {
    /// The posteriors that the present messages would give, see `predicted`.
    pub open spec fn prediction(
        self,
        previous: Seq<i64>,
        gammas: Seq<i64>,
        beta: int,
        sums: Option<Seq<i64>>,
    ) -> Seq<i64> {
        Seq::new(
            self.cols(),
            |v: int|
                self.predicted(
                    v,
                    previous[v] as int,
                    gammas[v] as int,
                    beta,
                    match sums {
                        Some(s) => s[v] as int,
                        None => 0,
                    },
                ) as i64,
        )
    }

    /// The syndrome of the hard decision on `posterior`.
    pub open spec fn syndrome_of(self, posterior: Seq<i64>) -> Seq<Bit> {
        self.matrix.mul_mod2(hard_decision(posterior))
    }

    /// The weight of the hard decision on `posterior`.
    pub open spec fn score_of(self, posterior: Seq<i64>) -> int {
        decoding_quality(self.config.priors, hard_decision(posterior))
    }

    /// The last of least weight among the first `n` posteriors that explain the detectors.
    pub open spec fn best_member(
        self,
        det: Seq<Bit>,
        posteriors: Seq<Seq<i64>>,
        n: nat,
    ) -> Option<int>
        decreases n,
    {
        if n == 0 {
            None
        } else {
            let p = posteriors[n - 1];
            let before = self.best_member(det, posteriors, (n - 1) as nat);
            if self.syndrome_of(p) != det {
                before
            } else {
                match before {
                    Some(b) => if self.score_of(p) > self.score_of(posteriors[b]) {
                        before
                    } else {
                        Some(n - 1)
                    },
                    None => Some(n - 1),
                }
            }
        }
    }
}

impl DualRelayDecoderConfig {
    /// The parameters are in range.
    pub open spec fn wf(self) -> bool {
        &&& is_gain(self.initial_gamma_slow)
        &&& is_gain(self.initial_gamma_fast)
        &&& is_gain(self.eta)
        &&& is_gain(self.delta)
        &&& is_gain(self.beta)
        &&& forall|i: int| 0 <= i < self.initial_gamma.len() ==> is_gain(#[trigger] self.initial_gamma[i])
        &&& positive(self.maximum_leg) < usize::MAX
        &&& self.iterations_limit() <= usize::MAX
    }

    /// The most iterations of all legs.
    pub open spec fn iterations_limit(self) -> nat {
        (positive(self.pre_iter) + (positive(self.maximum_leg) - 1) * positive(
            self.iteration_per_leg,
        )) as nat
    }

    /// The most iterations of leg `leg`.
    pub open spec fn budget(self, leg: nat) -> nat {
        if leg == 0 {
            positive(self.pre_iter)
        } else {
            positive(self.iteration_per_leg)
        }
    }

    /// What was drawn suffices for all legs.
    pub open spec fn supplied(self, draws: Seq<DualRelayDraws>, cols: nat) -> bool {
        &&& draws.len() + 1 >= positive(self.maximum_leg)
        &&& forall|l: int|
            0 <= l < positive(self.maximum_leg) - 1 ==> self.supplies(#[trigger] draws[l], cols)
    }

    /// What was drawn suffices for one leg.
    pub open spec fn supplies(self, draws: DualRelayDraws, cols: nat) -> bool {
        if self.ensemble_mode {
            &&& draws.ensemble_gammas.len() >= positive(self.iteration_per_leg)
            &&& forall|t: int|
                0 <= t < positive(self.iteration_per_leg) ==> {
                    &&& (#[trigger] draws.ensemble_gammas[t]).len() >= positive(self.ensemble_size)
                    &&& forall|i: int|
                        0 <= i < positive(self.ensemble_size) ==> is_gain(
                            #[trigger] draws.ensemble_gammas[t][i],
                        )
                }
        } else {
            &&& are_gains(draws.gammas_slow@, cols)
            &&& are_gains(draws.gammas_fast@, cols)
        }
    }

    /// The slow memory strengths of leg `leg`.
    pub open spec fn slow_gammas(self, draws: Seq<DualRelayDraws>, leg: nat, cols: nat) -> Seq<i64> {
        if leg == 0 {
            Seq::new(cols, |v: int| self.initial_gamma_slow)
        } else {
            draws[leg - 1].gammas_slow@
        }
    }

    /// The fast memory strengths of leg `leg`.
    pub open spec fn fast_gammas(self, draws: Seq<DualRelayDraws>, leg: nat, cols: nat) -> Seq<i64> {
        if leg == 0 {
            Seq::new(cols, |v: int| self.initial_gamma_fast)
        } else {
            draws[leg - 1].gammas_fast@
        }
    }

    /// The memory strengths of the ensemble in iteration `t` of leg `leg`.
    pub open spec fn member_gammas(self, draws: Seq<DualRelayDraws>, leg: nat, t: int) -> Seq<i64> {
        if leg == 0 {
            Seq::new(
                positive(self.num_pre_iteration_instance),
                |i: int|
                    if self.initial_gamma.len() == 0 {
                        self.initial_gamma_slow
                    } else if i < self.initial_gamma.len() {
                        self.initial_gamma[i]
                    } else {
                        self.initial_gamma@.last()
                    },
            )
        } else {
            draws[leg - 1].ensemble_gammas[t]@.take(positive(self.ensemble_size) as int)
        }
    }

    /// A slow and a fast posterior mixed, where the unit is `one`.
    pub open spec fn mixed(self, slow: int, fast: int, one: int) -> int {
        let value = if self.mix_mode is WeightedFast && (slow >= 0) != (fast >= 0) {
            trunc_div(self.delta * fast, one) + slow
        } else {
            blend(slow, fast, self.eta as int, one)
        };
        bound(value, i64::MAX as int)
    }

    /// Slow and fast posteriors mixed.
    pub open spec fn mix_all(self, slow: Seq<i64>, fast: Seq<i64>, one: int) -> Seq<i64> {
        Seq::new(slow.len(), |v: int| self.mixed(slow[v] as int, fast[v] as int, one) as i64)
    }

    /// An iteration of an ensemble with the memory strengths `members`: the posteriors of the
    /// best member that explains the detectors, or the medians.
    pub open spec fn ensemble_step(
        self,
        members: Seq<i64>,
        det: Seq<Bit>,
        previous: Seq<i64>,
        sums: Option<Seq<i64>>,
        b: BpModel,
        counts: DualCounts,
    ) -> DualState {
        let posteriors = self.member_posteriors(members, previous, sums, b);
        match b.best_member(det, posteriors, posteriors.len()) {
            Some(i) => DualState {
                bp: b.rebuilt(posteriors[i]),
                decoded: b.syndrome_of(posteriors[i]),
                success: true,
                counts,
            },
            None => {
                let next = b.rebuilt(medians(posteriors, b.cols()));
                joined(next, det, counts)
            },
        }
    }

    /// The posteriors that the memory strengths `members` would give.
    pub open spec fn member_posteriors(
        self,
        members: Seq<i64>,
        previous: Seq<i64>,
        sums: Option<Seq<i64>>,
        b: BpModel,
    ) -> Seq<Seq<i64>> {
        Seq::new(
            members.len(),
            |i: int|
                b.prediction(
                    previous,
                    Seq::new(b.cols(), |v: int| members[i]),
                    self.beta as int,
                    sums,
                ),
        )
    }

    /// An iteration with slow and fast memory strengths: the posteriors of the one that
    /// explains the detectors, of the lighter one if both do, the slow one if both weigh the
    /// same; or their mixture.
    pub open spec fn paired_step(
        self,
        slow_gammas: Seq<i64>,
        fast_gammas: Seq<i64>,
        det: Seq<Bit>,
        previous: Seq<i64>,
        sums: Option<Seq<i64>>,
        b: BpModel,
        counts: DualCounts,
    ) -> DualState {
        let slow = b.prediction(previous, slow_gammas, self.beta as int, sums);
        let fast = b.prediction(previous, fast_gammas, self.beta as int, sums);
        let slow_explains = b.syndrome_of(slow) == det;
        let fast_explains = b.syndrome_of(fast) == det;
        if slow_explains && (!fast_explains || b.score_of(slow) <= b.score_of(fast)) {
            DualState {
                bp: b.rebuilt(slow),
                decoded: b.syndrome_of(slow),
                success: true,
                counts: DualCounts {
                    slow_success_count: (counts.slow_success_count + 1) as usize,
                    ..counts
                },
            }
        } else if fast_explains {
            DualState {
                bp: b.rebuilt(fast),
                decoded: b.syndrome_of(fast),
                success: true,
                counts: DualCounts {
                    fast_success_count: (counts.fast_success_count + 1) as usize,
                    ..counts
                },
            }
        } else {
            let next = b.rebuilt(self.mix_all(slow, fast, b.config.one()));
            joined(next, det, self.mixes_counted(slow, fast, counts))
        }
    }

    /// The counts after a mixture.
    pub open spec fn mixes_counted(
        self,
        slow: Seq<i64>,
        fast: Seq<i64>,
        counts: DualCounts,
    ) -> DualCounts {
        match self.mix_mode {
            DualRelayMixMode::NaiveAverage => DualCounts {
                naive_average_applied_count: (counts.naive_average_applied_count + 1) as usize,
                ..counts
            },
            DualRelayMixMode::WeightedFast => if disagree(slow, fast) {
                DualCounts {
                    weighted_fast_disagreement_applied_count: (
                    counts.weighted_fast_disagreement_applied_count + 1) as usize,
                    ..counts
                }
            } else {
                counts
            },
        }
    }

    /// One iteration of leg `leg`.
    pub open spec fn step(
        self,
        draws: Seq<DualRelayDraws>,
        det: Seq<Bit>,
        s: DualState,
        leg: nat,
    ) -> DualState {
        let previous = s.bp.posterior;
        let sums = if self.use_previous_message {
            Some(
                Seq::new(
                    s.bp.cols(),
                    |v: int| bound(sum(s.bp.incoming(v)), i64::MAX as int) as i64,
                ),
            )
        } else {
            None
        };
        let b = s.bp.check_step(det);
        let next = if self.ensemble_mode {
            self.ensemble_step(
                self.member_gammas(draws, leg, s.bp.iteration as int),
                det,
                previous,
                sums,
                b,
                s.counts,
            )
        } else {
            self.paired_step(
                self.slow_gammas(draws, leg, b.cols()),
                self.fast_gammas(draws, leg, b.cols()),
                det,
                previous,
                sums,
                b,
                s.counts,
            )
        };
        DualState { bp: next.bp.counted(), ..next }
    }

    /// Iterating leg `leg` until the detectors are explained, `n` times at most.
    pub open spec fn iterate(
        self,
        draws: Seq<DualRelayDraws>,
        det: Seq<Bit>,
        s: DualState,
        leg: nat,
        n: nat,
    ) -> DualState
        decreases n,
    {
        if n == 0 {
            s
        } else {
            let next = self.step(draws, det, s, leg);
            if next.success {
                next
            } else {
                self.iterate(draws, det, next, leg, (n - 1) as nat)
            }
        }
    }

    /// A leg starts: the messages at their start and the posteriors handed on.
    pub open spec fn leg_start(self, det: Seq<Bit>, s: DualState) -> DualState {
        DualState {
            bp: BpModel { iteration: 0, ..s.bp }.checks_silent().variables_at_prior(),
            decoded: zero_bits(det.len()),
            success: false,
            counts: s.counts,
        }
    }

    /// The state after leg `leg`, which follows one that ended in `s`. Without any iteration
    /// the estimate handed on is looked at.
    pub open spec fn leg_end(
        self,
        draws: Seq<DualRelayDraws>,
        det: Seq<Bit>,
        s: DualState,
        leg: nat,
    ) -> DualState {
        let last = self.iterate(draws, det, self.leg_start(det, s), leg, self.budget(leg));
        if self.budget(leg) == 0 {
            DualState {
                decoded: last.bp.decoded_detectors(),
                success: last.bp.converged(det),
                ..last
            }
        } else {
            last
        }
    }

    /// The run with leg `leg` added.
    pub open spec fn leg_added(
        self,
        draws: Seq<DualRelayDraws>,
        det: Seq<Bit>,
        t: DualRun,
        leg: nat,
    ) -> DualRun {
        let s = self.leg_end(draws, det, t.last, leg);
        let result = s.bp.result(s.success, s.decoded, self.iterations_limit());
        DualRun {
            legs: t.legs.push(result),
            found: if result.success && !t.found.contains(result.decoding) {
                t.found.push(result.decoding)
            } else {
                t.found
            },
            last: s,
        }
    }

    /// Whether no leg is run after leg `leg`, which converged.
    pub open spec fn stops(self, t: DualRun, leg: nat) -> bool {
        t.found.len() >= positive(self.n_solutions) || match self.stopping_criterion {
            StoppingCriterion::PreIter => leg == 0,
            StoppingCriterion::NConv { stop_after } => successes(t.legs) >= stop_after,
            StoppingCriterion::All => false,
        }
    }

    /// Running the legs from `leg` on.
    pub open spec fn legs_from(
        self,
        draws: Seq<DualRelayDraws>,
        det: Seq<Bit>,
        t: DualRun,
        leg: nat,
    ) -> DualRun
        decreases positive(self.maximum_leg) - leg,
    {
        if leg >= positive(self.maximum_leg) {
            t
        } else {
            let next = self.leg_added(draws, det, t, leg);
            if next.legs.last().success && self.stops(next, leg) {
                next
            } else {
                self.legs_from(draws, det, next, leg + 1)
            }
        }
    }

    /// All legs of a decoder in the state `d`.
    pub open spec fn run(self, draws: Seq<DualRelayDraws>, det: Seq<Bit>, d: BpModel) -> DualRun {
        let begin = DualRun {
            legs: Seq::empty(),
            found: Seq::empty(),
            last: DualState {
                bp: d.initialized(),
                decoded: zero_bits(det.len()),
                success: false,
                counts: no_counts(),
            },
        };
        self.legs_from(draws, det, begin, 0)
    }

    /// The parameters of the min-sum decoder: memory, no messages dropped.
    pub open spec fn inner(self, config: ConfigModel) -> ConfigModel {
        ConfigModel {
            max_iter: (self.pre_iter + (if self.maximum_leg == 0 {
                0
            } else {
                (self.maximum_leg - 1) * self.iteration_per_leg
            })) as usize,
            gamma0: Some(self.initial_gamma_slow),
            drop_enabled: false,
            drop_threshold: 0,
            ..config
        }
    }
}

/// Some slow posterior disagrees in sign with the fast one.
pub open spec fn disagree(slow: Seq<i64>, fast: Seq<i64>) -> bool {
    exists|v: int| 0 <= v < slow.len() && ((#[trigger] slow[v]) >= 0) != (fast[v] >= 0)
}

/// The state after an iteration that ended in `next`.
pub open spec fn joined(next: BpModel, det: Seq<Bit>, counts: DualCounts) -> DualState {
    DualState {
        bp: next,
        decoded: next.decoded_detectors(),
        success: next.converged(det),
        counts: if next.converged(det) {
            DualCounts { joint_success_count: (counts.joint_success_count + 1) as usize, ..counts }
        } else {
            counts
        },
    }
}

/// The hard decision does not see a limit to ratios, if it is not zero.
pub proof fn lemma_decision_bounded(posterior: Seq<i64>, limit: int)
    requires
        1 <= limit <= i64::MAX,
    ensures
        hard_decision(bound_all(posterior, limit)) == hard_decision(posterior),
{
    assert(hard_decision(bound_all(posterior, limit)) =~= hard_decision(posterior));
}

/// The median of a list of values that is not empty.
pub fn median_of(values: &Vec<i64>) -> (r: i64)
    requires
        values.len() > 0,
        forall|i: int| 0 <= i < values.len() ==> values[i] > i64::MIN,
    ensures
        r == median(values@),
        r > i64::MIN,
{
    let mut keys: Vec<Key> = Vec::new();
    let mut i: usize = 0;
    while i < values.len()
        invariant
            i <= values.len(),
            keys.len() == i,
            forall|k: int| 0 <= k < i ==> keys[k] == value_keys(values@)[k],
        decreases values.len() - i,
    {
        keys.push((values[i] as i128, 0i128));
        i += 1;
    }
    assert(keys@ =~= value_keys(values@));
    let places: Vec<usize> = sorted_indices(&keys);
    let mid: usize = values.len() / 2;
    let upper: i64 = values[places[mid]];
    if values.len() % 2 == 1 {
        upper
    } else {
        let lower: i64 = values[places[mid - 1]];
        let both: i128 = (lower as i128) + (upper as i128);
        let half: i128 = divide(both, 2);
        proof {
            let m = abs(both as int);
            assert(m / 2 <= 0x7fff_ffff_ffff_ffff);
        }
        half as i64
    }
}

/// The median of each column of rows of `cols` values each.
fn medians_of(rows: &Vec<Vec<i64>>, cols: usize) -> (r: Vec<i64>)
    requires
        rows.len() > 0,
        forall|i: int| 0 <= i < rows.len() ==> (#[trigger] rows[i]).len() == cols,
        forall|i: int, v: int|
            0 <= i < rows.len() && 0 <= v < cols ==> (#[trigger] rows[i]@[v]) > i64::MIN,
    ensures
        r@ == medians(Seq::new(rows@.len(), |i: int| rows@[i]@), cols as nat),
        forall|v: int| 0 <= v < r.len() ==> r[v] > i64::MIN,
{
    let ghost all = Seq::new(rows@.len(), |i: int| rows@[i]@);
    let ghost expected = medians(all, cols as nat);
    let mut r: Vec<i64> = Vec::new();
    let mut v: usize = 0;
    while v < cols
        invariant
            rows.len() > 0,
            forall|i: int| 0 <= i < rows.len() ==> (#[trigger] rows[i]).len() == cols,
            forall|i: int, u: int|
                0 <= i < rows.len() && 0 <= u < cols ==> (#[trigger] rows[i]@[u]) > i64::MIN,
            all == Seq::new(rows@.len(), |i: int| rows@[i]@),
            expected == medians(all, cols as nat),
            v <= cols,
            r.len() == v,
            forall|u: int| 0 <= u < v ==> #[trigger] r[u] == expected[u] && r[u] > i64::MIN,
        decreases cols - v,
    {
        let mut values: Vec<i64> = Vec::new();
        let mut i: usize = 0;
        while i < rows.len()
            invariant
                forall|k: int| 0 <= k < rows.len() ==> (#[trigger] rows[k]).len() == cols,
                forall|k: int, u: int|
                    0 <= k < rows.len() && 0 <= u < cols ==> (#[trigger] rows[k]@[u]) > i64::MIN,
                v < cols,
                i <= rows.len(),
                values.len() == i,
                forall|k: int| 0 <= k < i ==> values[k] == rows[k]@[v as int] && values[k] > i64::MIN,
            decreases rows.len() - i,
        {
            assert(rows[i as int]@[v as int] > i64::MIN);
            values.push(rows[i][v]);
            i += 1;
        }
        assert(values@ =~= column(all, v as int));
        let middle: i64 = median_of(&values);
        let ghost before = r@;
        r.push(middle);
        proof {
            assert(expected[v as int] == median(column(all, v as int)) as i64);
            assert forall|u: int| 0 <= u < v + 1 implies #[trigger] r[u] == expected[u] && r[u]
                > i64::MIN by {
                if u < v {
                    assert(before[u] == expected[u]);
                }
            }
        }
        v += 1;
    }
    assert(r@ =~= expected);
    r
}

/// A decoder that tries several memory strengths in every iteration.
#[derive(Clone, Debug)]
pub struct DualRelayDecoder {
    pub bp_decoder: MinSumBPDecoder,
    pub config: DualRelayDecoderConfig,
}

/// What came of an iteration.
struct Iterated {
    decoded: Vec<Bit>,
    success: bool,
    counts: DualCounts,
}

impl DualRelayDecoder {
    /// The parts fit each other.
    pub open spec fn wf(self) -> bool {
        &&& self.bp_decoder@.wf()
        &&& self.config.wf()
    }

    /// A dual relay decoder for the code with check matrix `check_matrix`.
    pub fn new(
        check_matrix: SparseBitMatrix,
        min_sum_config: MinSumDecoderConfig,
        config: DualRelayDecoderConfig,
    ) -> (r: Self)
        requires
            check_matrix@.wf(),
            min_sum_config@.wf(check_matrix@.cols),
            config.wf(),
        ensures
            r.wf(),
            r.bp_decoder@ == BpModel::built(check_matrix@, config.inner(min_sum_config@)),
            r.config == config,
    {
        let ghost outer = min_sum_config@;
        let mut inner: MinSumDecoderConfig = min_sum_config;
        proof {
            assert(config.maximum_leg > 0 ==> (config.maximum_leg - 1) * config.iteration_per_leg
                <= (positive(config.maximum_leg) - 1) * positive(config.iteration_per_leg))
                by (nonlinear_arith)
                requires
                    positive(config.maximum_leg) >= config.maximum_leg,
                    positive(config.iteration_per_leg) >= config.iteration_per_leg,
            ;
            assert(config.maximum_leg == 0 ==> (positive(config.maximum_leg) - 1) * positive(
                config.iteration_per_leg,
            ) == 0) by (nonlinear_arith)
                requires
                    config.maximum_leg == 0 ==> positive(config.maximum_leg) == 1,
            ;
        }
        inner.max_iter = if config.maximum_leg == 0 {
            config.pre_iter
        } else {
            config.pre_iter + (config.maximum_leg - 1) * config.iteration_per_leg
        };
        inner.gamma0 = Some(config.initial_gamma_slow);
        inner.enable_variable_message_drop = false;
        inner.drop_llr_threshold = 0;
        assert(inner@ =~= config.inner(outer));
        DualRelayDecoder { bp_decoder: MinSumBPDecoder::new(check_matrix, inner), config }
    }

    /// Slow and fast posteriors mixed, and whether some of their signs disagree.
    pub fn mix_posteriors(&self, posterior_slow: &Vec<i64>, posterior_fast: &Vec<i64>) -> (r: (
        Vec<i64>,
        bool,
    ))
        requires
            self.wf(),
            posterior_slow.len() == posterior_fast.len(),
        ensures
            r.0@ == self.config.mix_all(
                posterior_slow@,
                posterior_fast@,
                self.bp_decoder@.config.one(),
            ),
            r.1 == (self.config.mix_mode is WeightedFast && disagree(
                posterior_slow@,
                posterior_fast@,
            )),
            forall|v: int| 0 <= v < r.0.len() ==> r.0[v] > i64::MIN,
    {
        let one: i64 = self.bp_decoder.config.unit();
        let ghost expected = self.config.mix_all(posterior_slow@, posterior_fast@, one as int);
        let weighted: bool = match self.config.mix_mode {
            DualRelayMixMode::NaiveAverage => false,
            DualRelayMixMode::WeightedFast => true,
        };
        let mut mixed: Vec<i64> = Vec::new();
        let mut used: bool = false;
        let mut v: usize = 0;
        while v < posterior_slow.len()
            invariant
                self.wf(),
                one == self.bp_decoder@.config.one(),
                1 <= one <= GAIN_LIMIT,
                posterior_slow.len() == posterior_fast.len(),
                weighted == (self.config.mix_mode is WeightedFast),
                expected == self.config.mix_all(posterior_slow@, posterior_fast@, one as int),
                v <= posterior_slow.len(),
                mixed.len() == v,
                forall|u: int| 0 <= u < v ==> mixed[u] == expected[u] && mixed[u] > i64::MIN,
                used == (weighted && exists|u: int|
                    0 <= u < v && ((#[trigger] posterior_slow@[u]) >= 0) != (posterior_fast@[u]
                        >= 0)),
            decreases posterior_slow.len() - v,
        {
            let slow: i64 = posterior_slow[v];
            let fast: i64 = posterior_fast[v];
            if weighted && (slow >= 0) != (fast >= 0) {
                assert((posterior_slow@[v as int] >= 0) != (posterior_fast@[v as int] >= 0));
                used = true;
                proof {
                    lemma_product_bound(
                        self.config.delta as int,
                        fast as int,
                        0x2000_0000_0000_0000,
                        0x8000_0000_0000_0000,
                    );
                }
                let product: i128 = (self.config.delta as i128) * (fast as i128);
                let added: i128 = divide(product, one);
                mixed.push(narrow(added + (slow as i128), i64::MAX));
            } else {
                mixed.push(narrow(blend_ratios(slow, fast, self.config.eta, one), i64::MAX));
            }
            v += 1;
        }
        assert(mixed@ =~= expected);
        (mixed, used)
    }

    /// The posteriors that the present messages would give with the memory strengths
    /// `gammas`. They become those of the decoder: their syndrome, whether it is the one to
    /// explain, and their weight.
    fn attempt(
        &mut self,
        detectors: &Vec<Bit>,
        previous: &Vec<i64>,
        gammas: &Vec<i64>,
        sums: &Option<Vec<i64>>,
        Ghost(b): Ghost<BpModel>,
    ) -> (r: (Vec<i64>, Vec<Bit>, bool, i128))
        requires
            old(self).wf(),
            old(self).bp_decoder@ == (BpModel {
                posterior: old(self).bp_decoder@.posterior,
                decoding: old(self).bp_decoder@.decoding,
                ..b
            }),
            b.wf(),
            previous.len() == b.cols(),
            are_gains(gammas@, b.cols()),
            sums matches Some(s) ==> s.len() == b.cols(),
        ensures
            final(self).wf(),
            final(self).config == old(self).config,
            final(self).bp_decoder@ == (BpModel {
                posterior: final(self).bp_decoder@.posterior,
                decoding: final(self).bp_decoder@.decoding,
                ..b
            }),
            r.0@ == b.prediction(
                previous@,
                gammas@,
                old(self).config.beta as int,
                match sums {
                    Some(s) => Some(s@),
                    None => None,
                },
            ),
            r.0.len() == b.cols(),
            forall|v: int| 0 <= v < r.0.len() ==> r.0[v] > i64::MIN,
            r.1@ == b.syndrome_of(r.0@),
            r.2 == (b.syndrome_of(r.0@) == detectors@),
            r.3 == b.score_of(r.0@),
    {
        let posterior: Vec<i64> = self.bp_decoder.predict_posterior_from_previous_and_memory(
            previous,
            gammas,
            sums,
            self.config.beta,
        );
        proof {
            let given = match sums {
                Some(s) => Some(s@),
                None => None,
            };
            let expected = b.prediction(previous@, gammas@, self.config.beta as int, given);
            assert forall|v: int| 0 <= v < b.cols() implies posterior[v] == expected[v]
                && posterior[v] > i64::MIN by {
                assert(self.bp_decoder@.incoming(v) == b.incoming(v));
            }
            assert(posterior@ =~= expected);
        }
        self.bp_decoder.set_posterior_ratios(posterior.clone());
        self.bp_decoder.recompute_hard_decision();
        let decoded: Vec<Bit> = self.bp_decoder.compute_decoded_detectors();
        let success: bool = self.bp_decoder.check_convergence(detectors, &decoded);
        let score: i128 = self.bp_decoder.get_decoding_quality(&self.bp_decoder.decoding);
        (posterior, decoded, success, score)
    }

    /// The memory strengths of the ensemble in iteration `t` of leg `leg`.
    fn members_at(&self, draws: &Vec<DualRelayDraws>, leg: usize, t: usize) -> (r: Vec<i64>)
        requires
            self.wf(),
            self.config.ensemble_mode,
            self.config.supplied(draws@, self.bp_decoder@.cols()),
            leg < positive(self.config.maximum_leg),
            t < self.config.budget(leg as nat),
        ensures
            r@ == self.config.member_gammas(draws@, leg as nat, t as int),
            r.len() > 0,
            forall|i: int| 0 <= i < r.len() ==> is_gain(#[trigger] r[i]),
    {
        let ghost expected = self.config.member_gammas(draws@, leg as nat, t as int);
        let mut r: Vec<i64> = Vec::new();
        if leg == 0 {
            let count: usize = at_least_one(self.config.num_pre_iteration_instance);
            let known: usize = self.config.initial_gamma.len();
            while r.len() < count
                invariant
                    self.wf(),
                    leg == 0,
                    count == positive(self.config.num_pre_iteration_instance),
                    known == self.config.initial_gamma.len(),
                    expected == self.config.member_gammas(draws@, leg as nat, t as int),
                    r.len() <= count,
                    forall|i: int|
                        0 <= i < r.len() ==> r[i] == expected[i] && is_gain(#[trigger] r[i]),
                decreases count - r.len(),
            {
                let i: usize = r.len();
                let gamma: i64 = if known == 0 {
                    self.config.initial_gamma_slow
                } else if i < known {
                    self.config.initial_gamma[i]
                } else {
                    self.config.initial_gamma[known - 1]
                };
                r.push(gamma);
            }
        } else {
            let count: usize = at_least_one(self.config.ensemble_size);
            assert(self.config.supplies(draws@[leg - 1], self.bp_decoder@.cols()));
            while r.len() < count
                invariant
                    leg > 0,
                    leg <= draws.len(),
                    count == positive(self.config.ensemble_size),
                    t < draws[leg - 1].ensemble_gammas.len(),
                    count <= draws[leg - 1].ensemble_gammas[t as int].len(),
                    forall|i: int|
                        0 <= i < count ==> is_gain(
                            #[trigger] draws[leg - 1].ensemble_gammas[t as int][i],
                        ),
                    expected == self.config.member_gammas(draws@, leg as nat, t as int),
                    r.len() <= count,
                    forall|i: int|
                        0 <= i < r.len() ==> r[i] == expected[i] && is_gain(#[trigger] r[i]),
                decreases count - r.len(),
            {
                let i: usize = r.len();
                assert(is_gain(draws[leg - 1].ensemble_gammas[t as int][i as int]));
                r.push(draws[leg - 1].ensemble_gammas[t][i]);
            }
        }
        assert(r@ =~= expected);
        r
    }

    /// An iteration with an ensemble, after the checks sent their messages.
    fn ensemble_iteration(
        &mut self,
        detectors: &Vec<Bit>,
        members: &Vec<i64>,
        previous: &Vec<i64>,
        sums: &Option<Vec<i64>>,
        counts: DualCounts,
    ) -> (r: Iterated)
        requires
            old(self).wf(),
            detectors.len() == old(self).bp_decoder@.matrix.rows,
            members.len() > 0,
            forall|i: int| 0 <= i < members.len() ==> is_gain(#[trigger] members[i]),
            previous.len() == old(self).bp_decoder@.cols(),
            sums matches Some(s) ==> s.len() == old(self).bp_decoder@.cols(),
            counts.joint_success_count < usize::MAX,
        ensures
            final(self).wf(),
            final(self).config == old(self).config,
            ({
                let next = old(self).config.ensemble_step(
                    members@,
                    detectors@,
                    previous@,
                    match sums {
                        Some(s) => Some(s@),
                        None => None,
                    },
                    old(self).bp_decoder@,
                    counts,
                );
                &&& final(self).bp_decoder@ == next.bp
                &&& r.decoded@ == next.decoded
                &&& r.success == next.success
                &&& r.counts == next.counts
            }),
    {
        let ghost b = self.bp_decoder@;
        let ghost config = self.config;
        let ghost given = match sums {
            Some(s) => Some(s@),
            None => None,
        };
        let ghost all = config.member_posteriors(members@, previous@, given, b);
        let cols: usize = self.bp_decoder.check_matrix.cols;
        let mut posteriors: Vec<Vec<i64>> = Vec::new();
        let mut best: Option<usize> = None;
        let mut best_decoded: Vec<Bit> = Vec::new();
        let mut best_score: i128 = 0;
        let mut i: usize = 0;
        while i < members.len()
            invariant
                self.wf(),
                self.config == config,
                b.wf(),
                cols == b.cols(),
                self.bp_decoder@ == (BpModel {
                    posterior: self.bp_decoder@.posterior,
                    decoding: self.bp_decoder@.decoding,
                    ..b
                }),
                forall|k: int| 0 <= k < members.len() ==> is_gain(#[trigger] members[k]),
                previous.len() == b.cols(),
                sums matches Some(s) ==> s.len() == b.cols(),
                given == (match sums {
                    Some(s) => Some(s@),
                    None => None,
                }),
                all == config.member_posteriors(members@, previous@, given, b),
                i <= members.len(),
                posteriors.len() == i,
                forall|k: int|
                    0 <= k < i ==> (#[trigger] posteriors[k])@ == all[k] && posteriors[k].len()
                        == cols,
                forall|k: int, v: int|
                    0 <= k < i && 0 <= v < cols ==> (#[trigger] posteriors[k]@[v]) > i64::MIN,
                match best {
                    Some(k) => {
                        &&& k < i
                        &&& b.best_member(detectors@, all, i as nat) == Some(k as int)
                        &&& best_decoded@ == b.syndrome_of(all[k as int])
                        &&& best_score == b.score_of(all[k as int])
                    },
                    None => b.best_member(detectors@, all, i as nat) is None,
                },
            decreases members.len() - i,
        {
            let gammas: Vec<i64> = vec![members[i]; cols];
            proof {
                assert(is_gain(members[i as int]));
                assert(gammas@ =~= Seq::new(b.cols(), |v: int| members@[i as int]));
            }
            let (posterior, decoded, success, score) = self.attempt(
                detectors,
                previous,
                &gammas,
                sums,
                Ghost(b),
            );
            assert(posterior@ == all[i as int]);
            if success {
                let keep: bool = match best {
                    Some(_) => score > best_score,
                    None => false,
                };
                if !keep {
                    best = Some(i);
                    best_decoded = decoded;
                    best_score = score;
                }
            }
            posteriors.push(posterior);
            i += 1;
        }
        let ghost tried = self.bp_decoder@;
        match best {
            Some(k) => {
                let posterior: Vec<i64> = posteriors[k].clone();
                assert forall|v: int| 0 <= v < posterior.len() implies posterior[v] > i64::MIN by {
                    assert(posteriors[k as int]@[v] > i64::MIN);
                }
                self.bp_decoder.set_posterior_and_rebuild_variable_to_check(posterior);
                assert(tried.rebuilt(all[k as int]) =~= b.rebuilt(all[k as int]));
                Iterated { decoded: best_decoded, success: true, counts }
            },
            None => {
                assert(Seq::new(posteriors@.len(), |k: int| posteriors@[k]@) =~= all);
                let median_posterior: Vec<i64> = medians_of(&posteriors, cols);
                let ghost m = median_posterior@;
                self.bp_decoder.set_posterior_and_rebuild_variable_to_check(median_posterior);
                assert(tried.rebuilt(m) =~= b.rebuilt(m));
                self.join(detectors, counts)
            },
        }
    }

    /// What came of an iteration whose posteriors no single attempt gave.
    fn join(&self, detectors: &Vec<Bit>, counts: DualCounts) -> (r: Iterated)
        requires
            self.wf(),
            counts.joint_success_count < usize::MAX,
        ensures
            ({
                let next = joined(self.bp_decoder@, detectors@, counts);
                &&& r.decoded@ == next.decoded
                &&& r.success == next.success
                &&& r.counts == next.counts
            }),
    {
        let decoded: Vec<Bit> = self.bp_decoder.compute_decoded_detectors();
        let success: bool = self.bp_decoder.check_convergence(detectors, &decoded);
        let counts: DualCounts = if success {
            DualCounts { joint_success_count: counts.joint_success_count + 1, ..counts }
        } else {
            counts
        };
        Iterated { decoded, success, counts }
    }

    /// An iteration with slow and fast memory strengths, after the checks sent their
    /// messages.
    fn paired_iteration(
        &mut self,
        detectors: &Vec<Bit>,
        gammas_slow: &Vec<i64>,
        gammas_fast: &Vec<i64>,
        previous: &Vec<i64>,
        sums: &Option<Vec<i64>>,
        counts: DualCounts,
    ) -> (r: Iterated)
        requires
            old(self).wf(),
            detectors.len() == old(self).bp_decoder@.matrix.rows,
            are_gains(gammas_slow@, old(self).bp_decoder@.cols()),
            are_gains(gammas_fast@, old(self).bp_decoder@.cols()),
            previous.len() == old(self).bp_decoder@.cols(),
            sums matches Some(s) ==> s.len() == old(self).bp_decoder@.cols(),
            at_most(counts, usize::MAX - 1),
        ensures
            final(self).wf(),
            final(self).config == old(self).config,
            ({
                let next = old(self).config.paired_step(
                    gammas_slow@,
                    gammas_fast@,
                    detectors@,
                    previous@,
                    match sums {
                        Some(s) => Some(s@),
                        None => None,
                    },
                    old(self).bp_decoder@,
                    counts,
                );
                &&& final(self).bp_decoder@ == next.bp
                &&& r.decoded@ == next.decoded
                &&& r.success == next.success
                &&& r.counts == next.counts
            }),
    {
        let ghost b = self.bp_decoder@;
        let (slow, decoded_slow, success_slow, score_slow) = self.attempt(
            detectors,
            previous,
            gammas_slow,
            sums,
            Ghost(b),
        );
        let (fast, decoded_fast, success_fast, score_fast) = self.attempt(
            detectors,
            previous,
            gammas_fast,
            sums,
            Ghost(b),
        );
        let ghost tried = self.bp_decoder@;
        if success_slow && (!success_fast || score_slow <= score_fast) {
            let ghost p = slow@;
            self.bp_decoder.set_posterior_and_rebuild_variable_to_check(slow);
            assert(tried.rebuilt(p) =~= b.rebuilt(p));
            Iterated {
                decoded: decoded_slow,
                success: true,
                counts: DualCounts { slow_success_count: counts.slow_success_count + 1, ..counts },
            }
        } else if success_fast {
            let ghost p = fast@;
            self.bp_decoder.set_posterior_and_rebuild_variable_to_check(fast);
            assert(tried.rebuilt(p) =~= b.rebuilt(p));
            Iterated {
                decoded: decoded_fast,
                success: true,
                counts: DualCounts { fast_success_count: counts.fast_success_count + 1, ..counts },
            }
        } else {
            let (mixed, used) = self.mix_posteriors(&slow, &fast);
            let ghost p = mixed@;
            self.bp_decoder.set_posterior_and_rebuild_variable_to_check(mixed);
            assert(tried.rebuilt(p) =~= b.rebuilt(p));
            let counts: DualCounts = match self.config.mix_mode {
                DualRelayMixMode::NaiveAverage => DualCounts {
                    naive_average_applied_count: counts.naive_average_applied_count + 1,
                    ..counts
                },
                DualRelayMixMode::WeightedFast => {
                    if used {
                        DualCounts {
                            weighted_fast_disagreement_applied_count:
                                counts.weighted_fast_disagreement_applied_count + 1,
                            ..counts
                        }
                    } else {
                        counts
                    }
                },
            };
            self.join(detectors, counts)
        }
    }

    /// One iteration of leg `leg`.
    fn run_dual_iteration(
        &mut self,
        detectors: &Vec<Bit>,
        draws: &Vec<DualRelayDraws>,
        gammas_slow: &Vec<i64>,
        gammas_fast: &Vec<i64>,
        leg: usize,
        counts: DualCounts,
        Ghost(s): Ghost<DualState>,
    ) -> (r: Iterated)
        requires
            old(self).wf(),
            old(self).config.supplied(draws@, old(self).bp_decoder@.cols()),
            detectors.len() == old(self).bp_decoder@.matrix.rows,
            leg < positive(old(self).config.maximum_leg),
            old(self).bp_decoder@.iteration < old(self).config.budget(leg as nat),
            !old(self).config.ensemble_mode ==> {
                let cols = old(self).bp_decoder@.cols();
                &&& gammas_slow@ == old(self).config.slow_gammas(draws@, leg as nat, cols)
                &&& gammas_fast@ == old(self).config.fast_gammas(draws@, leg as nat, cols)
                &&& are_gains(gammas_slow@, cols)
                &&& are_gains(gammas_fast@, cols)
            },
            at_most(counts, usize::MAX - 1),
            s.bp == old(self).bp_decoder@,
            s.counts == counts,
        ensures
            final(self).wf(),
            final(self).config == old(self).config,
            final(self).bp_decoder@.matrix == old(self).bp_decoder@.matrix,
            final(self).bp_decoder@.config == old(self).bp_decoder@.config,
            final(self).bp_decoder@.iteration == old(self).bp_decoder@.iteration + 1,
            (DualState {
                bp: final(self).bp_decoder@,
                decoded: r.decoded@,
                success: r.success,
                counts: r.counts,
            }) == old(self).config.step(draws@, detectors@, s, leg as nat),
            forall|n: int| at_most(counts, n) ==> at_most(r.counts, n + 1),
    {
        let t: usize = self.bp_decoder.current_iteration;
        let previous: Vec<i64> = self.bp_decoder.posterior_ratios.clone();
        let sums: Option<Vec<i64>> = if self.config.use_previous_message {
            Some(self.bp_decoder.sum_check_to_variable_by_variable())
        } else {
            None
        };
        self.bp_decoder.run_check_to_variable_update(detectors);
        let r: Iterated = if self.config.ensemble_mode {
            let members: Vec<i64> = self.members_at(draws, leg, t);
            self.ensemble_iteration(detectors, &members, &previous, &sums, counts)
        } else {
            self.paired_iteration(detectors, gammas_slow, gammas_fast, &previous, &sums, counts)
        };
        self.bp_decoder.current_iteration = t + 1;
        proof {
            let next = self.config.step(draws@, detectors@, s, leg as nat);
            assert(self.bp_decoder@ =~= next.bp);
        }
        r
    }

    /// Leg `leg`: its result and what was counted.
    fn run_leg(
        &mut self,
        detectors: &Vec<Bit>,
        draws: &Vec<DualRelayDraws>,
        leg: usize,
        counts: DualCounts,
        Ghost(last): Ghost<DualState>,
        Ghost(done): Ghost<int>,
    ) -> (r: (DecodeResult, DualCounts))
        requires
            old(self).wf(),
            old(self).config.supplied(draws@, old(self).bp_decoder@.cols()),
            detectors.len() == old(self).bp_decoder@.matrix.rows,
            leg < positive(old(self).config.maximum_leg),
            at_most(counts, done),
            done + old(self).config.budget(leg as nat) <= usize::MAX,
            last.bp == old(self).bp_decoder@,
            last.counts == counts,
        ensures
            final(self).wf(),
            final(self).config == old(self).config,
            final(self).bp_decoder@.matrix == old(self).bp_decoder@.matrix,
            final(self).bp_decoder@.config == old(self).bp_decoder@.config,
            ({
                let config = old(self).config;
                let s = config.leg_end(draws@, detectors@, last, leg as nat);
                &&& final(self).bp_decoder@ == s.bp
                &&& r.0@ == s.bp.result(s.success, s.decoded, config.iterations_limit())
                &&& r.1 == s.counts
            }),
            r.0.iterations <= old(self).config.budget(leg as nat),
            at_most(r.1, done + r.0.iterations),
            r.0.decoding.len() == old(self).bp_decoder@.cols(),
            r.0.posterior_ratios.len() == old(self).bp_decoder@.cols(),
    {
        let ghost config = self.config;
        let ghost d = self.bp_decoder@;
        let cols: usize = self.bp_decoder.check_matrix.cols;
        let iter_budget: usize = if leg == 0 {
            at_least_one(self.config.pre_iter)
        } else {
            at_least_one(self.config.iteration_per_leg)
        };
        let pre_iter: usize = at_least_one(self.config.pre_iter);
        let others: usize = at_least_one(self.config.maximum_leg) - 1;
        let iter_per_leg: usize = at_least_one(self.config.iteration_per_leg);
        assert(others * iter_per_leg >= 0) by (nonlinear_arith)
            requires
                others >= 0,
                iter_per_leg >= 0,
        ;
        let max_iter_total: usize = pre_iter + others * iter_per_leg;
        let mut gammas_slow: Vec<i64> = Vec::new();
        let mut gammas_fast: Vec<i64> = Vec::new();
        if !self.config.ensemble_mode {
            if leg == 0 {
                gammas_slow = vec![self.config.initial_gamma_slow; cols];
                gammas_fast = vec![self.config.initial_gamma_fast; cols];
            } else {
                assert(config.supplies(draws@[leg - 1], d.cols()));
                gammas_slow = draws[leg - 1].gammas_slow.clone();
                gammas_fast = draws[leg - 1].gammas_fast.clone();
            }
            assert(gammas_slow@ =~= config.slow_gammas(draws@, leg as nat, d.cols()));
            assert(gammas_fast@ =~= config.fast_gammas(draws@, leg as nat, d.cols()));
        }
        self.bp_decoder.current_iteration = 0;
        self.bp_decoder.initialize_check_to_variable();
        self.bp_decoder.initialize_variable_to_check();
        let mut success: bool = false;
        let mut decoded: Vec<Bit> = vec![0; detectors.len()];
        let mut counts: DualCounts = counts;
        let ghost mut s = config.leg_start(detectors@, last);
        let ghost all = config.iterate(draws@, detectors@, s, leg as nat, config.budget(leg as nat));
        assert(decoded@ =~= zero_bits(detectors@.len()));
        assert(self.bp_decoder@ =~= s.bp);
        let mut i: usize = 0;
        while i < iter_budget && !success
            invariant
                self.wf(),
                self.config == config,
                config.supplied(draws@, d.cols()),
                self.bp_decoder@.matrix == d.matrix,
                self.bp_decoder@.config == d.config,
                detectors.len() == d.matrix.rows,
                leg < positive(config.maximum_leg),
                iter_budget == config.budget(leg as nat),
                done + iter_budget <= usize::MAX,
                !config.ensemble_mode ==> {
                    &&& gammas_slow@ == config.slow_gammas(draws@, leg as nat, d.cols())
                    &&& gammas_fast@ == config.fast_gammas(draws@, leg as nat, d.cols())
                    &&& are_gains(gammas_slow@, d.cols())
                    &&& are_gains(gammas_fast@, d.cols())
                },
                i <= iter_budget,
                self.bp_decoder@.iteration == i,
                at_most(counts, done + i),
                s == (DualState {
                    bp: self.bp_decoder@,
                    decoded: decoded@,
                    success,
                    counts,
                }),
                all == (if success {
                    s
                } else {
                    config.iterate(draws@, detectors@, s, leg as nat, (iter_budget - i) as nat)
                }),
            decreases iter_budget - i + (if success {
                0int
            } else {
                1
            }),
        {
            let r: Iterated = self.run_dual_iteration(
                detectors,
                draws,
                &gammas_slow,
                &gammas_fast,
                leg,
                counts,
                Ghost(s),
            );
            proof {
                s = config.step(draws@, detectors@, s, leg as nat);
            }
            decoded = r.decoded;
            success = r.success;
            counts = r.counts;
            i += 1;
        }
        if iter_budget == 0 {
            decoded = self.bp_decoder.compute_decoded_detectors();
            success = self.bp_decoder.check_convergence(detectors, &decoded);
        }
        let result: DecodeResult = self.bp_decoder.build_result(success, decoded, max_iter_total);
        (result, counts)
    }

    /// Decodes a syndrome. `draws[l]` holds what was drawn for leg `l + 1`.
    #[verifier::rlimit(30)]
    pub fn decode_detailed(&mut self, detectors: &Vec<Bit>, draws: &Vec<DualRelayDraws>) -> (r:
        DecodeResult)
        requires
            old(self).wf(),
            old(self).config.supplied(draws@, old(self).bp_decoder@.cols()),
            detectors.len() == old(self).bp_decoder@.matrix.rows,
        ensures
            final(self).wf(),
            final(self).config == old(self).config,
            ({
                let t = old(self).config.run(draws@, detectors@, old(self).bp_decoder@);
                &&& final(self).bp_decoder@ == t.last.bp
                &&& r@ == lightest(t.legs)
                &&& r.extra matches BPExtraResult::DualRelayTrace(e) && t.told(e)
            }),
            final(self).bp_decoder@.matrix == old(self).bp_decoder@.matrix,
            final(self).bp_decoder@.config == old(self).bp_decoder@.config,
            r.decoding.len() == old(self).bp_decoder@.cols(),
            r.posterior_ratios.len() == old(self).bp_decoder@.cols(),
            r.success && old(self).bp_decoder@.config.limit() > 0
                ==> old(self).bp_decoder@.matrix.mul_mod2(r.decoding@) == detectors@,
    {
        let ghost config = self.config;
        let ghost d = self.bp_decoder@;
        let ghost all = config.run(draws@, detectors@, d);
        let maximum_leg: usize = at_least_one(self.config.maximum_leg);
        let required: usize = at_least_one(self.config.n_solutions);
        let stopping_criterion: StoppingCriterion = self.config.stopping_criterion;
        self.bp_decoder.initialize_decoder();
        let mut counts: DualCounts = DualCounts {
            slow_success_count: 0,
            fast_success_count: 0,
            joint_success_count: 0,
            naive_average_applied_count: 0,
            weighted_fast_disagreement_applied_count: 0,
        };
        let mut trace: LegTrace = LegTrace::new();
        let mut found: Vec<Vec<Bit>> = Vec::new();
        let mut num_converged: usize = 0;
        let mut total: usize = 0;
        let mut chosen: Option<DecodeResult> = None;
        let mut done: bool = false;
        let mut leg: usize = 0;
        let ghost mut t = DualRun {
            legs: Seq::empty(),
            found: Seq::empty(),
            last: DualState {
                bp: d.initialized(),
                decoded: zero_bits(detectors@.len()),
                success: false,
                counts: no_counts(),
            },
        };
        assert(bit_rows(found@) =~= t.found);
        while leg < maximum_leg && !done
            invariant
                self.wf(),
                self.config == config,
                config.supplied(draws@, d.cols()),
                d.cols() < usize::MAX,
                self.bp_decoder@.matrix == d.matrix,
                self.bp_decoder@.config == d.config,
                detectors.len() == d.matrix.rows,
                maximum_leg == positive(config.maximum_leg),
                required == positive(config.n_solutions),
                stopping_criterion == config.stopping_criterion,
                leg <= maximum_leg,
                t.last.bp == self.bp_decoder@,
                t.last.counts == counts,
                t.legs.len() == leg,
                weighed(t.legs),
                bit_rows(found@) == t.found,
                found.len() <= leg,
                trace@ == LegsModel::of(t.legs),
                num_converged == successes(t.legs),
                num_converged <= leg,
                total == total_iterations(t.legs),
                total <= spent(config, leg as nat),
                at_most(counts, total as int),
                match chosen {
                    Some(c) => {
                        &&& leg > 0
                        &&& c@ == (ResultModel {
                            iterations: c@.iterations,
                            ..lightest(t.legs)
                        })
                        &&& c.decoding.len() == d.cols()
                        &&& c.posterior_ratios.len() == d.cols()
                    },
                    None => leg == 0,
                },
                all == (if done {
                    t
                } else {
                    config.legs_from(draws@, detectors@, t, leg as nat)
                }),
                done ==> leg > 0,
            decreases maximum_leg - leg + (if done {
                0int
            } else {
                1
            }),
        {
            proof {
                lemma_spent(config, leg as nat);
            }
            let (result, counted) = self.run_leg(
                detectors,
                draws,
                leg,
                counts,
                Ghost(t.last),
                Ghost(total as int),
            );
            counts = counted;
            trace.record(&result);
            total = total + result.iterations;
            let ghost next = config.leg_added(draws@, detectors@, t, leg as nat);
            let success: bool = result.success;
            proof {
                let s = config.iterate(
                    draws@,
                    detectors@,
                    config.leg_start(detectors@, t.last),
                    leg as nat,
                    config.budget(leg as nat),
                );
                lemma_result_weight(s.bp, s.success, s.decoded, config.iterations_limit());
                lemma_legs_push(t.legs, result@);
                assert(next.legs.drop_last() =~= t.legs);
                assert(next.legs.last() == result@);
                assert forall|k: int| 0 <= k < next.legs.len() implies ((
                #[trigger] next.legs[k]).success <==> next.legs[k].quality < i128::MAX)
                    && next.legs[k].quality <= i128::MAX by {
                    if k < t.legs.len() {
                        assert(next.legs[k] == t.legs[k]);
                    }
                }
                if leg > 0 {
                    lemma_lightest(t.legs);
                    lemma_successes(t.legs);
                    lemma_best_leg(t.legs);
                    let b = best_leg(t.legs);
                    assert(t.legs[b] == next.legs[b]);
                } else {
                    reveal_with_fuel(successes, 2);
                }
            }
            if success {
                num_converged = num_converged + 1;
                let known: bool = holds(&found, &result.decoding);
                if !known {
                    found.push(result.decoding.clone());
                }
                assert(bit_rows(found@) =~= next.found);
                let enough: bool = match stopping_criterion {
                    StoppingCriterion::PreIter => leg == 0,
                    StoppingCriterion::NConv { stop_after } => num_converged >= stop_after,
                    StoppingCriterion::All => false,
                };
                done = found.len() >= required || enough;
            }
            let replace: bool = match &chosen {
                Some(c) => if success {
                    !c.success || result.decoding_quality < c.decoding_quality
                } else {
                    !c.success
                },
                None => true,
            };
            if replace {
                chosen = Some(result);
            }
            proof {
                t = next;
            }
            leg += 1;
        }
        proof {
            law_dual_lightest(config, draws@, detectors@, d);
        }
        let unique_solution_count: usize = found.len();
        match chosen {
            Some(c) => {
                let mut r: DecodeResult = c;
                r.iterations = total;
                r.extra = BPExtraResult::DualRelayTrace(
                    DualRelayTrace { legs: trace, counts, unique_solution_count },
                );
                assert(r@ =~= lightest(t.legs));
                r
            },
            None => {
                assert(false);
                self.bp_decoder.build_result(false, Vec::new(), 0)
            },
        }
    }
}

/// The most iterations of the first `leg` legs.
pub open spec fn spent(config: DualRelayDecoderConfig, leg: nat) -> nat {
    if leg == 0 {
        0
    } else {
        (positive(config.pre_iter) + (leg - 1) * positive(config.iteration_per_leg)) as nat
    }
}

proof fn lemma_spent(config: DualRelayDecoderConfig, leg: nat)
    requires
        config.wf(),
        leg < positive(config.maximum_leg),
    ensures
        spent(config, leg) + config.budget(leg) == spent(config, leg + 1),
        spent(config, leg + 1) <= usize::MAX,
{
    let each = positive(config.iteration_per_leg);
    let legs = positive(config.maximum_leg);
    assert(leg * each <= (legs - 1) * each) by (nonlinear_arith)
        requires
            leg <= legs - 1,
            each >= 0,
    ;
    assert(leg >= 1 ==> leg * each == (leg - 1) * each + each) by (nonlinear_arith);
    assert(leg * each >= 0 && (leg >= 1 ==> (leg - 1) * each >= 0)) by (nonlinear_arith)
        requires
            leg >= 0,
            each >= 0,
    ;
}

/// Whether `bits` is among `rows`.
fn holds(rows: &Vec<Vec<Bit>>, bits: &Vec<Bit>) -> (r: bool)
    ensures
        r == bit_rows(rows@).contains(bits@),
{
    let mut i: usize = 0;
    while i < rows.len()
        invariant
            i <= rows.len(),
            forall|k: int| 0 <= k < i ==> (#[trigger] bit_rows(rows@)[k]) != bits@,
        decreases rows.len() - i,
    {
        if same_bits(&rows[i], bits) {
            assert(bit_rows(rows@)[i as int] == bits@);
            return true;
        }
        i += 1;
    }
    false
}

impl DualRun {
    /// What is recorded of the run.
    pub open spec fn told(self, e: DualRelayTrace) -> bool {
        &&& e.legs@ == LegsModel::of(self.legs)
        &&& e.counts == self.last.counts
        &&& e.unique_solution_count == self.found.len()
    }
}

proof fn lemma_best_member(d: BpModel, det: Seq<Bit>, posteriors: Seq<Seq<i64>>, n: nat)
    requires
        n <= posteriors.len(),
    ensures
        d.best_member(det, posteriors, n) matches Some(i) ==> 0 <= i < n && d.syndrome_of(
            posteriors[i],
        ) == det,
    decreases n,
{
    if n > 0 {
        lemma_best_member(d, det, posteriors, (n - 1) as nat);
    }
}

/// Rebuilding keeps the code; the decoding is the hard decision, unless the limit to ratios
/// is zero.
proof fn lemma_rebuilt(b: BpModel, posterior: Seq<i64>)
    requires
        posterior.len() == b.cols(),
        0 <= b.config.limit(),
    ensures
        b.rebuilt(posterior).matrix == b.matrix,
        b.rebuilt(posterior).config == b.config,
        b.rebuilt(posterior).decoding.len() == b.cols(),
        b.config.limit() > 0 ==> b.rebuilt(posterior).decoding == hard_decision(posterior),
{
    if b.config.limit() > 0 {
        lemma_decision_bounded(posterior, b.config.limit());
    }
}

/// An iteration keeps the code, and its decoding explains the detectors where it succeeded.
proof fn lemma_step(
    config: DualRelayDecoderConfig,
    draws: Seq<DualRelayDraws>,
    det: Seq<Bit>,
    s: DualState,
    leg: nat,
)
    requires
        0 <= s.bp.config.limit(),
    ensures
        ({
            let next = config.step(draws, det, s, leg);
            &&& next.bp.matrix == s.bp.matrix
            &&& next.bp.config == s.bp.config
            &&& next.bp.decoding.len() == s.bp.cols()
            &&& s.bp.config.limit() > 0 ==> next.decoded == next.bp.decoded_detectors() && (
            next.success <==> next.bp.converged(det))
        }),
{
    let previous = s.bp.posterior;
    let sums = if config.use_previous_message {
        Some(
            Seq::new(
                s.bp.cols(),
                |v: int| bound(sum(s.bp.incoming(v)), i64::MAX as int) as i64,
            ),
        )
    } else {
        None
    };
    let b = s.bp.check_step(det);
    if config.ensemble_mode {
        let members = config.member_gammas(draws, leg, s.bp.iteration as int);
        let posteriors = config.member_posteriors(members, previous, sums, b);
        lemma_best_member(b, det, posteriors, posteriors.len());
        match b.best_member(det, posteriors, posteriors.len()) {
            Some(i) => {
                lemma_rebuilt(b, posteriors[i]);
            },
            None => {
                lemma_rebuilt(b, medians(posteriors, b.cols()));
            },
        }
    } else {
        let slow = b.prediction(
            previous,
            config.slow_gammas(draws, leg, b.cols()),
            config.beta as int,
            sums,
        );
        let fast = b.prediction(
            previous,
            config.fast_gammas(draws, leg, b.cols()),
            config.beta as int,
            sums,
        );
        lemma_rebuilt(b, slow);
        lemma_rebuilt(b, fast);
        lemma_rebuilt(b, config.mix_all(slow, fast, b.config.one()));
    }
}

proof fn lemma_iterate(
    config: DualRelayDecoderConfig,
    draws: Seq<DualRelayDraws>,
    det: Seq<Bit>,
    s: DualState,
    leg: nat,
    n: nat,
)
    requires
        0 <= s.bp.config.limit(),
        s.bp.decoding.len() == s.bp.cols(),
        !s.success,
    ensures
        ({
            let last = config.iterate(draws, det, s, leg, n);
            &&& last.bp.matrix == s.bp.matrix
            &&& last.bp.config == s.bp.config
            &&& last.bp.decoding.len() == s.bp.cols()
            &&& n > 0 && s.bp.config.limit() > 0 ==> last.decoded == last.bp.decoded_detectors()
                && (last.success <==> last.bp.converged(det))
        }),
    decreases n,
{
    if n > 0 {
        let next = config.step(draws, det, s, leg);
        lemma_step(config, draws, det, s, leg);
        if !next.success {
            lemma_iterate(config, draws, det, next, leg, (n - 1) as nat);
        }
    }
}

proof fn lemma_legs_from(
    config: DualRelayDecoderConfig,
    draws: Seq<DualRelayDraws>,
    det: Seq<Bit>,
    t: DualRun,
    leg: nat,
)
    requires
        0 <= t.last.bp.config.limit(),
        t.last.bp.decoding.len() == t.last.bp.cols(),
        t.last.bp.cols() < usize::MAX,
        t.legs.len() > 0 || leg < positive(config.maximum_leg),
        weighed(t.legs),
        t.last.bp.config.limit() > 0 ==> all_consistent(t.last.bp.matrix, det, t.legs),
    ensures
        ({
            let all = config.legs_from(draws, det, t, leg);
            &&& all.legs.len() > 0
            &&& weighed(all.legs)
            &&& t.last.bp.config.limit() > 0 ==> all_consistent(
                t.last.bp.matrix,
                det,
                all.legs,
            )
        }),
    decreases positive(config.maximum_leg) - leg,
{
    if leg < positive(config.maximum_leg) {
        let next = config.leg_added(draws, det, t, leg);
        let start = config.leg_start(det, t.last);
        lemma_iterate(config, draws, det, start, leg, config.budget(leg));
        let s = config.leg_end(draws, det, t.last, leg);
        lemma_result_weight(s.bp, s.success, s.decoded, config.iterations_limit());
        assert forall|k: int| 0 <= k < next.legs.len() implies ((#[trigger] next.legs[k]).success
            <==> next.legs[k].quality < i128::MAX) && next.legs[k].quality <= i128::MAX && (
        t.last.bp.config.limit() > 0 ==> consistent(t.last.bp.matrix, det, next.legs[k])) by {
            if k < t.legs.len() {
                assert(next.legs[k] == t.legs[k]);
            }
        }
        if !(next.legs.last().success && config.stops(next, leg)) {
            lemma_legs_from(config, draws, det, next, leg + 1);
        }
    }
}

/// The result of a dual relay decoder is a success exactly if some leg is, and no leg weighs
/// less. The result is consistent, unless every ratio is limited to zero.
pub proof fn law_dual_lightest(
    config: DualRelayDecoderConfig,
    draws: Seq<DualRelayDraws>,
    det: Seq<Bit>,
    d: BpModel,
)
    requires
        d.wf(),
    ensures
        ({
            let legs = config.run(draws, det, d).legs;
            &&& legs.len() > 0
            &&& lightest(legs).success <==> exists|l: int|
                0 <= l < legs.len() && (#[trigger] legs[l]).success
            &&& forall|l: int|
                0 <= l < legs.len() ==> lightest(legs).quality <= (#[trigger] legs[l]).quality
            &&& d.config.limit() > 0 ==> consistent(d.matrix, det, lightest(legs))
        }),
{
    let begin = DualRun {
        legs: Seq::empty(),
        found: Seq::empty(),
        last: DualState {
            bp: d.initialized(),
            decoded: zero_bits(det.len()),
            success: false,
            counts: no_counts(),
        },
    };
    lemma_legs_from(config, draws, det, begin, 0);
    let legs = config.run(draws, det, d).legs;
    lemma_lightest(legs);
    if d.config.limit() > 0 {
        assert(consistent(d.matrix, det, legs[legs.len() - 1]));
        if successes(legs) > 0 {
            assert(consistent(d.matrix, det, legs[best_leg(legs)]));
        }
    }
}

/// A dual relay decoder never runs beyond the leg that brings the number of distinct
/// solutions to the one asked for, nor beyond the number of legs that converged after which
/// it stops.
pub proof fn law_dual_stops(
    config: DualRelayDecoderConfig,
    draws: Seq<DualRelayDraws>,
    det: Seq<Bit>,
    d: BpModel,
)
    ensures
        ({
            let t = config.run(draws, det, d);
            &&& t.found.len() <= positive(config.n_solutions)
            &&& config.stopping_criterion matches StoppingCriterion::NConv { stop_after }
                ==> successes(t.legs) <= positive(stop_after)
        }),
{
    let begin = DualRun {
        legs: Seq::empty(),
        found: Seq::empty(),
        last: DualState {
            bp: d.initialized(),
            decoded: zero_bits(det.len()),
            success: false,
            counts: no_counts(),
        },
    };
    lemma_legs_stop(config, draws, det, begin, 0);
}

proof fn lemma_legs_stop(
    config: DualRelayDecoderConfig,
    draws: Seq<DualRelayDraws>,
    det: Seq<Bit>,
    t: DualRun,
    leg: nat,
)
    requires
        t.found.len() < positive(config.n_solutions),
        config.stopping_criterion matches StoppingCriterion::NConv { stop_after } ==> successes(
            t.legs,
        ) < positive(stop_after),
    ensures
        ({
            let all = config.legs_from(draws, det, t, leg);
            &&& all.found.len() <= positive(config.n_solutions)
            &&& config.stopping_criterion matches StoppingCriterion::NConv { stop_after }
                ==> successes(all.legs) <= positive(stop_after)
        }),
    decreases positive(config.maximum_leg) - leg,
{
    if leg < positive(config.maximum_leg) {
        let next = config.leg_added(draws, det, t, leg);
        assert(next.legs.drop_last() =~= t.legs);
        if !(next.legs.last().success && config.stops(next, leg)) {
            lemma_legs_stop(config, draws, det, next, leg + 1);
        }
    }
}

/// A dual relay decoder together with what was drawn for it.
#[derive(Clone, Debug)]
pub struct DrawnDualDecoder {
    pub dual: DualRelayDecoder,
    /// What was drawn for each decoding to come.
    pub supply: Vec<Vec<DualRelayDraws>>,
}

/// What such a decoder holds.
#[verifier::ext_equal]
pub struct DrawnDualModel {
    pub config: DualRelayDecoderConfig,
    pub bp: BpModel,
    pub supply: Seq<Vec<DualRelayDraws>>,
}

impl DrawnDualModel {
    /// The legs of decoding `det`.
    pub open spec fn run(self, det: Seq<Bit>) -> DualRun {
        self.config.run(self.supply[0]@, det, self.bp)
    }
}

impl Decoder for DrawnDualDecoder {
    type M = DrawnDualModel;

    open spec fn model(&self) -> DrawnDualModel {
        DrawnDualModel {
            config: self.dual.config,
            bp: self.dual.bp_decoder@,
            supply: self.supply@,
        }
    }

    open spec fn ready(m: DrawnDualModel) -> bool {
        &&& m.bp.wf()
        &&& m.config.wf()
        &&& forall|k: int|
            0 <= k < m.supply.len() ==> m.config.supplied(
                (#[trigger] m.supply[k])@,
                m.bp.cols(),
            )
        &&& m.bp.config.limit() > 0
    }

    open spec fn code(m: DrawnDualModel) -> MatrixModel {
        m.bp.matrix
    }

    open spec fn weights(m: DrawnDualModel) -> Seq<i64> {
        m.bp.config.priors
    }

    open spec fn outcome(m: DrawnDualModel, det: Seq<Bit>) -> ResultModel {
        lightest(m.run(det).legs)
    }

    open spec fn noted(m: DrawnDualModel, det: Seq<Bit>, extra: BPExtraResult) -> bool {
        extra matches BPExtraResult::DualRelayTrace(e) && m.run(det).told(e)
    }

    open spec fn next(m: DrawnDualModel, det: Seq<Bit>) -> DrawnDualModel {
        DrawnDualModel { bp: m.run(det).last.bp, supply: m.supply.skip(1), ..m }
    }

    open spec fn lasts(m: DrawnDualModel, n: nat) -> bool {
        m.supply.len() >= n
    }

    proof fn lemma_ready(m: DrawnDualModel) {
    }

    proof fn lemma_lasts(m: DrawnDualModel, det: Seq<Bit>, n: nat) {
    }

    fn can_decode(&self, n: usize) -> (r: bool) {
        self.supply.len() >= n
    }

    fn check_matrix(&self) -> (r: &SparseBitMatrix) {
        &self.dual.bp_decoder.check_matrix
    }

    fn log_prior_ratios(&self) -> (r: Vec<i64>) {
        self.dual.bp_decoder.config.log_prior_ratios.clone()
    }

    fn decode_detailed(&mut self, detectors: &Vec<Bit>) -> (r: DecodeResult) {
        let ghost m = self.model();
        let own: Vec<DualRelayDraws> = self.supply.remove(0);
        let r = self.dual.decode_detailed(detectors, &own);
        assert(self.model() =~= Self::next(m, detectors@));
        assert(Self::noted(m, detectors@, r.extra));
        r
    }
}

} // verus!
