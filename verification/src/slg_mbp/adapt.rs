//! The phases of a search and what each of them starts from.

use vstd::prelude::*;

use super::config::{
    AdaptiveMemoryMode, AdaptivePerturbationBiasMode, AdaptivePerturbationFactorMode,
    AdaptivePerturbationPriorBaseMode, AdaptivePerturbationSignMode, AdaptivePerturbationTarget,
    AdaptivePerturbationThresholdMode, AdaptivePerturbationVariableBaseMode, GammaMode,
    PerturbationMethod, SLGMBPDecoderConfig,
};
use super::evaluate::are_ratios;
use super::ga_ops::{coin, coin_at, MemberModel, PopulationMember};
use super::init_population::{
    apply_perturbation_state, draw_at, perturbation_of, perturbation_state, perturbed, shift_ratio,
    shifted, stretch_ratio, stretched, PerturbationState,
};
use crate::arith::{
    abs, bound, bound_value_magnitude, divide, lemma_product_bound, magnitude, narrow, trunc_div,
    GAIN_LIMIT,
};
use crate::matrix::SparseBitMatrix;
use crate::min_sum::{is_gain, MinSumDecoderConfig};

verus! {

/// What was drawn for the bias of each variable.
#[derive(Clone, Debug)]
pub struct AdaptiveDraws {
    /// The factor of the bias.
    pub factors: Vec<i64>,
    /// The logarithm of the factor.
    pub log_factors: Vec<i64>,
    /// Whether the bias is positive.
    pub positive: Vec<bool>,
}

/// What was drawn for one leg.
#[derive(Clone, Debug)]
pub struct LegDraws {
    /// The bias of the initial posteriors.
    pub marginal: AdaptiveDraws,
    /// The memory strength of each variable.
    pub gammas: Vec<i64>,
    /// Whether its sign is turned.
    pub gamma_flips: Vec<bool>,
    /// The draws of each iteration that count where messages may be dropped.
    pub coins: Vec<Vec<bool>>,
}

/// What was drawn for one member of a generation.
#[derive(Clone, Debug)]
pub struct MemberDraws {
    /// A new perturbation of the priors.
    pub perturbation: Vec<i64>,
    /// The bias of the priors.
    pub prior: AdaptiveDraws,
    /// Whether the memory strength of an uncertain variable is positive.
    pub signs: Vec<bool>,
    /// The memory strengths next to checks that are not explained.
    pub adjacent_gammas: Vec<i64>,
    /// The negative logarithm of a fraction for each variable, by which its memory strength
    /// becomes negative.
    pub adjacent_waits: Vec<i64>,
    /// The legs.
    pub legs: Vec<LegDraws>,
}

/// A decoder that searches by generations.
#[derive(Clone, Debug)]
pub struct SLGMBPDecoder {
    pub check_matrix: SparseBitMatrix,
    pub base_min_sum_config: MinSumDecoderConfig,
    pub config: SLGMBPDecoderConfig,
}

/// `prior` and `other` mixed with weights `one - weight` and `weight`. An infinite prior
/// stays infinite.
pub open spec fn blended(prior: int, other: int, weight: int, one: int) -> int {
    if prior == i64::MAX {
        prior
    } else {
        bound(trunc_div(prior * (one - weight) + other * weight, one), i64::MAX as int)
    }
}

/// Every prior mixed with what `other` holds by its own weight.
pub open spec fn all_blended(
    prior: Seq<i64>,
    other: Seq<i64>,
    weights: Seq<i64>,
    one: int,
) -> Seq<i64> {
    Seq::new(
        prior.len(),
        |v: int|
            blended(prior[v] as int, other[v] as int, weights[v] as int, one) as i64,
    )
}

/// A ratio divided by a fixed-point number. An infinite ratio stays infinite.
pub open spec fn shrunk(ratio: int, factor: int, one: int) -> int {
    if ratio == i64::MAX {
        ratio
    } else {
        bound(trunc_div(ratio * one, factor), i64::MAX as int)
    }
}

/// The memory strength that a leg draws for variable `v`.
pub open spec fn gamma_draw(leg: LegDraws, v: int) -> int {
    let g = bound(draw_at(leg.gammas@, v), GAIN_LIMIT as int);
    if coin(leg.gamma_flips@, v) {
        -g
    } else {
        g
    }
}

impl SLGMBPDecoder {
    /// The unit of the fixed-point numbers.
    pub open spec fn one(self) -> int {
        self.base_min_sum_config@.one()
    }

    /// The number of variables.
    pub open spec fn cols(self) -> nat {
        self.check_matrix@.cols
    }

    /// The parts fit each other.
    pub open spec fn wf(self) -> bool {
        &&& self.check_matrix@.wf()
        &&& self.check_matrix@.cols <= u32::MAX
        &&& self.check_matrix@.rows <= u32::MAX
        &&& self.base_min_sum_config@.wf(self.check_matrix@.cols)
        &&& self.config.wf(self.one() as i64)
    }

    /// The ratios of a code with as many variables.
    pub open spec fn fits(self, values: Seq<i64>) -> bool {
        values.len() == self.cols() && are_ratios(values)
    }

    /// The priors of the first phase.
    pub open spec fn first_prior(self) -> Seq<i64> {
        let bias = self.config.initial_prior_bias as int;
        Seq::new(
            self.base_min_sum_config@.priors.len(),
            |v: int| shifted(self.base_min_sum_config@.priors[v] as int, -bias) as i64,
        )
    }

    /// How much of a carried posterior is kept.
    pub open spec fn carry(self, reset: bool) -> int {
        if reset || self.config.marginal_carry_damping_factor < 0 {
            0
        } else if self.config.marginal_carry_damping_factor > self.one() {
            self.one()
        } else {
            self.config.marginal_carry_damping_factor as int
        }
    }

    /// What the posterior of variable `v` starts from.
    pub open spec fn carried_at(self, prior: Seq<i64>, child: Seq<i64>, reset: bool, v: int) -> int {
        let eligible = match self.config.marginal_carry_llr_abs_threshold {
            Some(t) => abs(child[v] as int) >= abs(t as int),
            None => true,
        };
        if self.carry(reset) <= 0 || !eligible {
            prior[v] as int
        } else {
            blended(
                prior[v] as int,
                stretched(child[v] as int, self.config.eta as int, self.one()),
                self.carry(reset),
                self.one(),
            )
        }
    }

    /// What the posteriors start from: the priors, mixed with what is carried over.
    pub open spec fn carried(self, prior: Seq<i64>, child: Seq<i64>, reset: bool) -> Seq<i64> {
        Seq::new(prior.len(), |v: int| self.carried_at(prior, child, reset, v) as i64)
    }

    /// The least and the greatest threshold of confidence.
    pub open spec fn threshold_bounds(self) -> (int, int) {
        let a = abs(self.config.adaptive_perturbation_llr_threshold_min as int);
        let b = abs(self.config.adaptive_perturbation_llr_threshold_max as int);
        if a <= b {
            (a, b)
        } else {
            (b, a)
        }
    }

    /// The threshold of confidence at first.
    pub open spec fn first_threshold(self) -> int {
        match self.config.adaptive_perturbation_llr_threshold_mode {
            AdaptivePerturbationThresholdMode::Constant => abs(
                self.config.adaptive_perturbation_llr_threshold as int,
            ),
            AdaptivePerturbationThresholdMode::GenerationLog10Iter => self.threshold_bounds().0,
        }
    }

    /// How much the threshold grows after a generation of `iterations` iterations.
    pub open spec fn increment(self, iterations: nat) -> int {
        let table = self.config.adaptive_perturbation_llr_threshold_increments@;
        if table.len() == 0 {
            0
        } else if iterations < table.len() {
            table[iterations as int] as int
        } else {
            table.last() as int
        }
    }

    /// The threshold of confidence after a generation of `iterations` iterations.
    pub open spec fn next_threshold(self, current: int, iterations: nat) -> int {
        match self.config.adaptive_perturbation_llr_threshold_mode {
            AdaptivePerturbationThresholdMode::Constant => abs(
                self.config.adaptive_perturbation_llr_threshold as int,
            ),
            AdaptivePerturbationThresholdMode::GenerationLog10Iter => {
                let (lo, hi) = self.threshold_bounds();
                clamped(clamped(current, lo, hi) + self.increment(iterations), lo, hi)
            },
        }
    }

    /// Whether variable `v` is biased: by the mask if there is one, else if it is uncertain.
    pub open spec fn chosen(
        self,
        mask: Option<Seq<bool>>,
        posterior: Seq<i64>,
        threshold: int,
        v: int,
    ) -> bool {
        match mask {
            Some(m) => coin(m, v),
            None => abs(posterior[v] as int) < abs(threshold),
        }
    }

    /// A ratio with the bias of variable `v`.
    pub open spec fn biased_ratio(self, ratio: int, draws: AdaptiveDraws, v: int) -> int {
        let positive = self.config.adaptive_perturbation_sign_mode
            == AdaptivePerturbationSignMode::Random && coin(draws.positive@, v);
        let fixed = self.config.adaptive_perturbation_factor_mode
            == AdaptivePerturbationFactorMode::Fixed;
        match self.config.adaptive_perturbation_bias_mode {
            AdaptivePerturbationBiasMode::Additive => {
                let log = if fixed {
                    self.config.adaptive_perturbation_log_factor as int
                } else {
                    draw_at(draws.log_factors@, v)
                };
                shifted(
                    ratio,
                    if positive {
                        log
                    } else {
                        -log
                    },
                )
            },
            AdaptivePerturbationBiasMode::Scale => {
                let drawn = if fixed {
                    self.config.adaptive_perturbation_factor as int
                } else {
                    draw_at(draws.factors@, v)
                };
                let factor = if drawn < 1 {
                    1
                } else {
                    drawn
                };
                if positive {
                    shrunk(ratio, factor, self.one())
                } else {
                    stretched(ratio, factor, self.one())
                }
            },
        }
    }

    /// `target` with the chosen variables biased.
    pub open spec fn biased(
        self,
        target: Seq<i64>,
        posterior: Seq<i64>,
        mask: Option<Seq<bool>>,
        threshold: int,
        draws: AdaptiveDraws,
    ) -> Seq<i64> {
        if !self.config.adaptive_perturbation {
            target
        } else {
            Seq::new(
                target.len(),
                |v: int|
                    if self.chosen(mask, posterior, threshold, v) {
                        self.biased_ratio(target[v] as int, draws, v) as i64
                    } else {
                        target[v]
                    },
            )
        }
    }

    /// The memory strengths by confidence, where they are what is biased.
    pub open spec fn biased_memory(
        self,
        posterior: Seq<i64>,
        mask: Option<Seq<bool>>,
        threshold: int,
        signs: Seq<bool>,
    ) -> Option<Seq<i64>> {
        if !self.config.adaptive_perturbation || self.config.adaptive_perturbation_target
            != AdaptivePerturbationTarget::MemoryStrength {
            None
        } else {
            let gamma = self.config.init_gamma;
            Some(
                Seq::new(
                    posterior.len(),
                    |v: int|
                        {
                            let back = self.config.adaptive_perturbation_reset_on_threshold_exit
                                && abs(posterior[v] as int) >= abs(threshold);
                            let positive = self.config.adaptive_perturbation_sign_mode
                                == AdaptivePerturbationSignMode::Random && coin(signs, v);
                            if self.chosen(mask, posterior, threshold, v) && !back {
                                if positive {
                                    abs(gamma as int) as i64
                                } else {
                                    (-abs(gamma as int)) as i64
                                }
                            } else {
                                gamma
                            }
                        },
                ),
            )
        }
    }

    /// The biased priors of a leg.
    pub open spec fn biased_prior(
        self,
        base: Seq<i64>,
        previous: Option<Seq<i64>>,
        mask: Option<Seq<bool>>,
        posterior: Seq<i64>,
        threshold: int,
        draws: AdaptiveDraws,
    ) -> Seq<i64> {
        let carries = self.config.adaptive_perturbation_prior_base_mode
            == AdaptivePerturbationPriorBaseMode::PreviousBiased;
        let target = match previous {
            Some(p) => if carries {
                p
            } else {
                base
            },
            None => base,
        };
        let rebased = self.biased(target, posterior, mask, threshold, draws);
        match self.config.adaptive_perturbation_target {
            AdaptivePerturbationTarget::Prior | AdaptivePerturbationTarget::Both => if carries
                && self.config.adaptive_perturbation_reset_on_threshold_exit {
                Seq::new(
                    rebased.len(),
                    |v: int|
                        if abs(posterior[v] as int) < abs(threshold) {
                            rebased[v]
                        } else {
                            base[v]
                        },
                )
            } else {
                rebased
            },
            _ => base,
        }
    }

    /// The posteriors that a leg starts from.
    pub open spec fn biased_start(
        self,
        prior: Seq<i64>,
        posterior: Seq<i64>,
        mask: Option<Seq<bool>>,
        threshold: int,
        reset: bool,
        draws: AdaptiveDraws,
    ) -> Seq<i64> {
        let start = self.carried(prior, posterior, reset);
        match self.config.adaptive_perturbation_target {
            AdaptivePerturbationTarget::Posterior | AdaptivePerturbationTarget::Both =>
            self.biased(start, posterior, mask, threshold, draws),
            _ => start,
        }
    }

    /// The member with its variables to be biased fixed, if they are to be.
    pub open spec fn masked(self, member: MemberModel, threshold: int) -> MemberModel {
        if self.config.adaptive_perturbation_variable_base_mode
            == AdaptivePerturbationVariableBaseMode::FirstLegPosteriorFixed && member.mask is None {
            MemberModel {
                mask: Some(
                    Seq::new(
                        member.posterior.len(),
                        |v: int| abs(member.posterior[v] as int) < abs(threshold),
                    ),
                ),
                ..member
            }
        } else {
            member
        }
    }

    /// The member as it enters a leg: its mask, its biased priors and its perturbation.
    pub open spec fn readied(
        self,
        base: Seq<i64>,
        member: MemberModel,
        threshold: int,
        draws: MemberDraws,
    ) -> MemberModel {
        let m = self.masked(member, threshold);
        let prior = self.biased_prior(
            base,
            m.adaptive_prior,
            m.mask,
            m.posterior,
            threshold,
            draws.prior,
        );
        let anew = self.config.sequential_mc || self.config.perturbation_method
            == PerturbationMethod::Resample || m.perturbation is Unperturbed;
        MemberModel {
            adaptive_prior: Some(prior),
            perturbation: if self.config.continue_perturbation && anew {
                perturbation_of(self.config.init_perturbation_mode, draws.perturbation@)
            } else {
                m.perturbation
            },
            ..m
        }
    }

    /// The priors of a leg of a member that entered it.
    pub open spec fn leg_prior(self, member: MemberModel) -> Seq<i64> {
        if self.config.continue_perturbation {
            perturbed(member.adaptive_prior->0, member.perturbation, self.one())
        } else {
            member.adaptive_prior->0
        }
    }

    /// The memory strengths of a leg: fixed or drawn.
    pub open spec fn default_memory(self, n: nat, leg: LegDraws) -> Seq<i64> {
        match self.config.gamma_mode {
            GammaMode::Fixed => Seq::new(n, |v: int| self.config.gamma_fixed),
            GammaMode::IntervalRandomPerVariable => Seq::new(
                n,
                |v: int| gamma_draw(leg, v) as i64,
            ),
        }
    }

    /// The memory strength of variable `v` next to a check that is not explained.
    pub open spec fn adjacent_gamma(self, posterior: Seq<i64>, draws: MemberDraws, v: int) -> int {
        let g = bound(draw_at(draws.adjacent_gammas@, v), GAIN_LIMIT as int);
        match self.config.adaptive_memory_mode {
            AdaptiveMemoryMode::DirectInterval => g,
            AdaptiveMemoryMode::ProbabilisticFlip => {
                let m = abs(posterior[v] as int);
                let confidence = if m < 1 {
                    1
                } else {
                    m
                };
                if confidence * draw_at(draws.adjacent_waits@, v)
                    > self.config.adaptive_memory_zeta * self.one() {
                    -abs(g)
                } else {
                    abs(g)
                }
            },
        }
    }

    /// The memory strengths of a leg of a member.
    pub open spec fn member_memory(
        self,
        posterior: Seq<i64>,
        adjacent: Seq<usize>,
        draws: MemberDraws,
        leg: LegDraws,
    ) -> Seq<i64> {
        let gamma = self.default_memory(posterior.len(), leg);
        if self.config.adaptive_memory {
            Seq::new(
                posterior.len(),
                |v: int|
                    if adjacent.contains(v as usize) {
                        self.adjacent_gamma(posterior, draws, v) as i64
                    } else {
                        gamma[v]
                    },
            )
        } else {
            gamma
        }
    }
}

/// `x` moved into the interval from `lo` to `hi`.
pub open spec fn clamped(x: int, lo: int, hi: int) -> int {
    if x < lo {
        lo
    } else if x > hi {
        hi
    } else {
        x
    }
}

/// Mixes two ratios.
pub fn blend_with_prior(prior: i64, other: i64, weight: i64, one: i64) -> (r: i64)
    requires
        1 <= one <= GAIN_LIMIT,
        is_gain(weight),
    ensures
        r == blended(prior as int, other as int, weight as int, one as int),
        r > i64::MIN,
{
    if prior == i64::MAX {
        return prior;
    }
    let rest: i128 = (one as i128) - (weight as i128);
    proof {
        lemma_product_bound(prior as int, rest as int, 0x8000_0000_0000_0000, 0x4000_0000_0000_0000);
        lemma_product_bound(
            other as int,
            weight as int,
            0x8000_0000_0000_0000,
            0x2000_0000_0000_0000,
        );
    }
    let mixed: i128 = (prior as i128) * rest + (other as i128) * (weight as i128);
    narrow(divide(mixed, one), i64::MAX)
}

/// Divides a ratio by a fixed-point number.
fn shrink_ratio(ratio: i64, factor: i64, one: i64) -> (r: i64)
    requires
        1 <= one <= GAIN_LIMIT,
        factor >= 1,
    ensures
        r == shrunk(ratio as int, factor as int, one as int),
        r > i64::MIN,
{
    if ratio == i64::MAX {
        return ratio;
    }
    proof {
        lemma_product_bound(ratio as int, one as int, 0x8000_0000_0000_0000, 0x2000_0000_0000_0000);
    }
    narrow(divide((ratio as i128) * (one as i128), factor), i64::MAX)
}

/// A draw for variable `v`; zero where nothing was drawn.
fn draw(draws: &Vec<i64>, v: usize) -> (r: i64)
    ensures
        r == draw_at(draws@, v as int),
{
    if v < draws.len() {
        draws[v]
    } else {
        0
    }
}

/// The memory strength that a leg draws for variable `v`.
fn draw_gamma(leg: &LegDraws, v: usize) -> (r: i64)
    ensures
        r == gamma_draw(*leg, v as int),
        is_gain(r),
{
    let g: i64 = bound_value_magnitude(draw(&leg.gammas, v), GAIN_LIMIT);
    if coin_at(&leg.gamma_flips, v) {
        -g
    } else {
        g
    }
}

/// What an optional mask holds.
pub open spec fn mask_of(mask: Option<&Vec<bool>>) -> Option<Seq<bool>> {
    match mask {
        Some(m) => Some(m@),
        None => None,
    }
}

/// What optional ratios hold.
pub open spec fn ratios_of(values: Option<&Vec<i64>>) -> Option<Seq<i64>> {
    match values {
        Some(p) => Some(p@),
        None => None,
    }
}

impl SLGMBPDecoder {
    /// A decoder for the code with check matrix `check_matrix`.
    pub fn new(
        check_matrix: SparseBitMatrix,
        min_sum_config: MinSumDecoderConfig,
        config: SLGMBPDecoderConfig,
    ) -> (r: Self)
        requires
            check_matrix@.wf(),
            check_matrix@.cols <= u32::MAX,
            check_matrix@.rows <= u32::MAX,
            min_sum_config@.wf(check_matrix@.cols),
            config.wf(min_sum_config@.one() as i64),
        ensures
            r.wf(),
            r.check_matrix == check_matrix,
            r.base_min_sum_config == min_sum_config,
            r.config == config,
    {
        SLGMBPDecoder { check_matrix, base_min_sum_config: min_sum_config, config }
    }

    /// The priors.
    pub fn prior_llr(&self) -> (r: Vec<i64>)
        ensures
            r@ == self.base_min_sum_config@.priors,
    {
        self.base_min_sum_config.log_prior_ratios.clone()
    }

    /// The priors of the first phase.
    pub fn initial_phase_prior_llr(&self) -> (r: Vec<i64>)
        requires
            self.wf(),
        ensures
            r@ == self.first_prior(),
            self.fits(r@),
    {
        let bias: i128 = -(self.config.initial_prior_bias as i128);
        let mut out: Vec<i64> = Vec::new();
        let mut v: usize = 0;
        while v < self.base_min_sum_config.log_prior_ratios.len()
            invariant
                self.wf(),
                bias == -(self.config.initial_prior_bias as int),
                v <= self.base_min_sum_config@.priors.len(),
                out.len() == v,
                forall|u: int|
                    0 <= u < v ==> out[u] == self.first_prior()[u] && (#[trigger] out[u])
                        > i64::MIN,
            decreases self.base_min_sum_config@.priors.len() - v,
        {
            out.push(shift_ratio(self.base_min_sum_config.log_prior_ratios[v], bias));
            v += 1;
        }
        assert(out@ =~= self.first_prior());
        out
    }

    /// What the posteriors start from.
    pub fn initial_marginal(
        &self,
        prior_llr: &Vec<i64>,
        child_llr: &Vec<i64>,
        reset_marginal: bool,
    ) -> (r: Vec<i64>)
        requires
            self.wf(),
            prior_llr.len() == child_llr.len(),
            are_ratios(prior_llr@),
            are_ratios(child_llr@),
        ensures
            r@ == self.carried(prior_llr@, child_llr@, reset_marginal),
            r.len() == prior_llr.len(),
            are_ratios(r@),
    {
        let one: i64 = self.base_min_sum_config.unit();
        let factor: i64 = self.config.marginal_carry_damping_factor;
        let carry: i64 = if reset_marginal || factor < 0 {
            0
        } else if factor > one {
            one
        } else {
            factor
        };
        let mut out: Vec<i64> = Vec::new();
        let mut v: usize = 0;
        while v < prior_llr.len()
            invariant
                self.wf(),
                prior_llr.len() == child_llr.len(),
                are_ratios(prior_llr@),
                are_ratios(child_llr@),
                one == self.one(),
                1 <= one <= GAIN_LIMIT,
                carry == self.carry(reset_marginal),
                0 <= carry <= one,
                v <= prior_llr.len(),
                out.len() == v,
                forall|u: int|
                    0 <= u < v ==> out[u] == self.carried(
                        prior_llr@,
                        child_llr@,
                        reset_marginal,
                    )[u] && (#[trigger] out[u]) > i64::MIN,
            decreases prior_llr.len() - v,
        {
            let eligible: bool = match self.config.marginal_carry_llr_abs_threshold {
                Some(t) => magnitude(child_llr[v]) >= magnitude(t),
                None => true,
            };
            let x: i64 = if carry <= 0 || !eligible {
                prior_llr[v]
            } else {
                blend_with_prior(
                    prior_llr[v],
                    stretch_ratio(child_llr[v], self.config.eta, one),
                    carry,
                    one,
                )
            };
            out.push(x);
            v += 1;
        }
        assert(out@ =~= self.carried(prior_llr@, child_llr@, reset_marginal));
        out
    }

    /// The least and the greatest threshold of confidence.
    pub fn adaptive_perturbation_llr_threshold_bounds(&self) -> (r: (i64, i64))
        requires
            self.wf(),
        ensures
            r.0 == self.threshold_bounds().0,
            r.1 == self.threshold_bounds().1,
            0 <= r.0 <= r.1,
    {
        let a: i64 = magnitude(self.config.adaptive_perturbation_llr_threshold_min);
        let b: i64 = magnitude(self.config.adaptive_perturbation_llr_threshold_max);
        if a <= b {
            (a, b)
        } else {
            (b, a)
        }
    }

    /// The threshold of confidence at first.
    pub fn initial_adaptive_perturbation_llr_threshold(&self) -> (r: i64)
        requires
            self.wf(),
        ensures
            r == self.first_threshold(),
            r >= 0,
    {
        match self.config.adaptive_perturbation_llr_threshold_mode {
            AdaptivePerturbationThresholdMode::Constant => magnitude(
                self.config.adaptive_perturbation_llr_threshold,
            ),
            AdaptivePerturbationThresholdMode::GenerationLog10Iter => {
                let bounds: (i64, i64) = self.adaptive_perturbation_llr_threshold_bounds();
                bounds.0
            },
        }
    }

    /// The threshold of confidence after a generation.
    pub fn next_adaptive_perturbation_llr_threshold(
        &self,
        current_threshold: i64,
        generation_iters: usize,
    ) -> (r: i64)
        requires
            self.wf(),
        ensures
            r == self.next_threshold(current_threshold as int, generation_iters as nat),
            r >= 0,
    {
        match self.config.adaptive_perturbation_llr_threshold_mode {
            AdaptivePerturbationThresholdMode::Constant => magnitude(
                self.config.adaptive_perturbation_llr_threshold,
            ),
            AdaptivePerturbationThresholdMode::GenerationLog10Iter => {
                let bounds: (i64, i64) = self.adaptive_perturbation_llr_threshold_bounds();
                let lo: i64 = bounds.0;
                let hi: i64 = bounds.1;
                let n: usize = self.config.adaptive_perturbation_llr_threshold_increments.len();
                let increment: i64 = if n == 0 {
                    0
                } else if generation_iters < n {
                    self.config.adaptive_perturbation_llr_threshold_increments[generation_iters]
                } else {
                    self.config.adaptive_perturbation_llr_threshold_increments[n - 1]
                };
                let start: i64 = if current_threshold < lo {
                    lo
                } else if current_threshold > hi {
                    hi
                } else {
                    current_threshold
                };
                let moved: i128 = (start as i128) + (increment as i128);
                if moved < lo as i128 {
                    lo
                } else if moved > hi as i128 {
                    hi
                } else {
                    moved as i64
                }
            },
        }
    }

    /// Whether variable `v` is biased.
    fn is_chosen(
        &self,
        mask: Option<&Vec<bool>>,
        posterior: &Vec<i64>,
        threshold: i64,
        v: usize,
    ) -> (r: bool)
        requires
            v < posterior.len(),
            are_ratios(posterior@),
            threshold > i64::MIN,
        ensures
            r == self.chosen(mask_of(mask), posterior@, threshold as int, v as int),
    {
        match mask {
            Some(m) => coin_at(m, v),
            None => magnitude(posterior[v]) < magnitude(threshold),
        }
    }

    /// A ratio with the bias of variable `v`.
    fn bias_ratio(&self, ratio: i64, draws: &AdaptiveDraws, v: usize) -> (r: i64)
        requires
            self.wf(),
        ensures
            r == self.biased_ratio(ratio as int, *draws, v as int),
            r > i64::MIN,
    {
        let one: i64 = self.base_min_sum_config.unit();
        let positive: bool = self.config.adaptive_perturbation_sign_mode
            == AdaptivePerturbationSignMode::Random && coin_at(&draws.positive, v);
        let fixed: bool = self.config.adaptive_perturbation_factor_mode
            == AdaptivePerturbationFactorMode::Fixed;
        match self.config.adaptive_perturbation_bias_mode {
            AdaptivePerturbationBiasMode::Additive => {
                let log: i64 = if fixed {
                    self.config.adaptive_perturbation_log_factor
                } else {
                    draw(&draws.log_factors, v)
                };
                let delta: i128 = if positive {
                    log as i128
                } else {
                    -(log as i128)
                };
                shift_ratio(ratio, delta)
            },
            AdaptivePerturbationBiasMode::Scale => {
                let drawn: i64 = if fixed {
                    self.config.adaptive_perturbation_factor
                } else {
                    draw(&draws.factors, v)
                };
                let factor: i64 = if drawn < 1 {
                    1
                } else {
                    drawn
                };
                if positive {
                    shrink_ratio(ratio, factor, one)
                } else {
                    stretch_ratio(ratio, factor, one)
                }
            },
        }
    }

    /// Biases the chosen variables.
    pub fn apply_adaptive_perturbation(
        &self,
        target_llr: &Vec<i64>,
        posterior: &Vec<i64>,
        fixed_target_mask: Option<&Vec<bool>>,
        adaptive_perturbation_llr_threshold: i64,
        draws: &AdaptiveDraws,
    ) -> (r: Vec<i64>)
        requires
            self.wf(),
            target_llr.len() == posterior.len(),
            are_ratios(target_llr@),
            are_ratios(posterior@),
            adaptive_perturbation_llr_threshold > i64::MIN,
        ensures
            r@ == self.biased(
                target_llr@,
                posterior@,
                mask_of(fixed_target_mask),
                adaptive_perturbation_llr_threshold as int,
                *draws,
            ),
            r.len() == target_llr.len(),
            are_ratios(r@),
    {
        if !self.config.adaptive_perturbation {
            return target_llr.clone();
        }
        let ghost all = self.biased(
            target_llr@,
            posterior@,
            mask_of(fixed_target_mask),
            adaptive_perturbation_llr_threshold as int,
            *draws,
        );
        let mut out: Vec<i64> = Vec::new();
        let mut v: usize = 0;
        while v < target_llr.len()
            invariant
                self.wf(),
                self.config.adaptive_perturbation,
                target_llr.len() == posterior.len(),
                are_ratios(target_llr@),
                are_ratios(posterior@),
                adaptive_perturbation_llr_threshold > i64::MIN,
                all == self.biased(
                    target_llr@,
                    posterior@,
                    mask_of(fixed_target_mask),
                    adaptive_perturbation_llr_threshold as int,
                    *draws,
                ),
                v <= target_llr.len(),
                out.len() == v,
                forall|u: int| 0 <= u < v ==> out[u] == all[u] && (#[trigger] out[u]) > i64::MIN,
            decreases target_llr.len() - v,
        {
            let x: i64 = if self.is_chosen(
                fixed_target_mask,
                posterior,
                adaptive_perturbation_llr_threshold,
                v,
            ) {
                self.bias_ratio(target_llr[v], draws, v)
            } else {
                target_llr[v]
            };
            out.push(x);
            v += 1;
        }
        assert(out@ =~= all);
        out
    }

    /// The memory strengths by confidence, where they are what is biased.
    pub fn build_adaptive_memory_strength(
        &self,
        posterior: &Vec<i64>,
        fixed_target_mask: Option<&Vec<bool>>,
        adaptive_perturbation_llr_threshold: i64,
        signs: &Vec<bool>,
    ) -> (r: Option<Vec<i64>>)
        requires
            self.wf(),
            are_ratios(posterior@),
            adaptive_perturbation_llr_threshold > i64::MIN,
        ensures
            (match r {
                Some(g) => Some(g@),
                None => None,
            }) == self.biased_memory(
                posterior@,
                mask_of(fixed_target_mask),
                adaptive_perturbation_llr_threshold as int,
                signs@,
            ),
            r matches Some(g) ==> g.len() == posterior.len() && forall|v: int|
                0 <= v < g.len() ==> is_gain(#[trigger] g[v]),
    {
        if !self.config.adaptive_perturbation || self.config.adaptive_perturbation_target
            != AdaptivePerturbationTarget::MemoryStrength {
            return None;
        }
        let ghost all = self.biased_memory(
            posterior@,
            mask_of(fixed_target_mask),
            adaptive_perturbation_llr_threshold as int,
            signs@,
        )->0;
        let threshold: i64 = magnitude(adaptive_perturbation_llr_threshold);
        let gamma: i64 = self.config.init_gamma;
        let gamma_abs: i64 = magnitude(gamma);
        let random: bool = self.config.adaptive_perturbation_sign_mode
            == AdaptivePerturbationSignMode::Random;
        let mut out: Vec<i64> = Vec::new();
        let mut v: usize = 0;
        while v < posterior.len()
            invariant
                self.wf(),
                self.config.adaptive_perturbation,
                self.config.adaptive_perturbation_target
                    == AdaptivePerturbationTarget::MemoryStrength,
                are_ratios(posterior@),
                adaptive_perturbation_llr_threshold > i64::MIN,
                threshold == abs(adaptive_perturbation_llr_threshold as int),
                gamma == self.config.init_gamma,
                gamma_abs == abs(gamma as int),
                random == (self.config.adaptive_perturbation_sign_mode
                    == AdaptivePerturbationSignMode::Random),
                all == self.biased_memory(
                    posterior@,
                    mask_of(fixed_target_mask),
                    adaptive_perturbation_llr_threshold as int,
                    signs@,
                )->0,
                v <= posterior.len(),
                out.len() == v,
                forall|u: int| 0 <= u < v ==> out[u] == all[u] && is_gain(#[trigger] out[u]),
            decreases posterior.len() - v,
        {
            let back: bool = self.config.adaptive_perturbation_reset_on_threshold_exit && magnitude(
                posterior[v],
            ) >= threshold;
            let flips: bool = self.is_chosen(
                fixed_target_mask,
                posterior,
                adaptive_perturbation_llr_threshold,
                v,
            );
            let g: i64 = if flips && !back {
                if random && coin_at(signs, v) {
                    gamma_abs
                } else {
                    -gamma_abs
                }
            } else {
                gamma
            };
            out.push(g);
            v += 1;
        }
        assert(out@ =~= all);
        Some(out)
    }

    /// The biased priors of a leg.
    pub fn build_adaptive_prior(
        &self,
        base_prior_llr: &Vec<i64>,
        previous_adaptive_prior: Option<&Vec<i64>>,
        fixed_target_mask: Option<&Vec<bool>>,
        posterior: &Vec<i64>,
        adaptive_perturbation_llr_threshold: i64,
        draws: &AdaptiveDraws,
    ) -> (r: Vec<i64>)
        requires
            self.wf(),
            base_prior_llr.len() == posterior.len(),
            are_ratios(base_prior_llr@),
            are_ratios(posterior@),
            previous_adaptive_prior matches Some(p) ==> p.len() == posterior.len() && are_ratios(
                p@,
            ),
            adaptive_perturbation_llr_threshold > i64::MIN,
        ensures
            r@ == self.biased_prior(
                base_prior_llr@,
                ratios_of(previous_adaptive_prior),
                mask_of(fixed_target_mask),
                posterior@,
                adaptive_perturbation_llr_threshold as int,
                *draws,
            ),
            r.len() == base_prior_llr.len(),
            are_ratios(r@),
    {
        match self.config.adaptive_perturbation_target {
            AdaptivePerturbationTarget::Prior | AdaptivePerturbationTarget::Both => {},
            _ => {
                return base_prior_llr.clone();
            },
        }
        let carries: bool = self.config.adaptive_perturbation_prior_base_mode
            == AdaptivePerturbationPriorBaseMode::PreviousBiased;
        let target: &Vec<i64> = match previous_adaptive_prior {
            Some(p) => if carries {
                p
            } else {
                base_prior_llr
            },
            None => base_prior_llr,
        };
        let rebased: Vec<i64> = self.apply_adaptive_perturbation(
            target,
            posterior,
            fixed_target_mask,
            adaptive_perturbation_llr_threshold,
            draws,
        );
        if !(carries && self.config.adaptive_perturbation_reset_on_threshold_exit) {
            return rebased;
        }
        let ghost all = self.biased_prior(
            base_prior_llr@,
            ratios_of(previous_adaptive_prior),
            mask_of(fixed_target_mask),
            posterior@,
            adaptive_perturbation_llr_threshold as int,
            *draws,
        );
        let threshold: i64 = magnitude(adaptive_perturbation_llr_threshold);
        let mut out: Vec<i64> = Vec::new();
        let mut v: usize = 0;
        while v < rebased.len()
            invariant
                rebased.len() == posterior.len(),
                base_prior_llr.len() == posterior.len(),
                are_ratios(base_prior_llr@),
                are_ratios(posterior@),
                are_ratios(rebased@),
                threshold == abs(adaptive_perturbation_llr_threshold as int),
                all == Seq::new(
                    rebased@.len(),
                    |u: int|
                        if abs(posterior@[u] as int) < abs(
                            adaptive_perturbation_llr_threshold as int,
                        ) {
                            rebased@[u]
                        } else {
                            base_prior_llr@[u]
                        },
                ),
                v <= rebased.len(),
                out.len() == v,
                forall|u: int| 0 <= u < v ==> out[u] == all[u] && (#[trigger] out[u]) > i64::MIN,
            decreases rebased.len() - v,
        {
            let x: i64 = if magnitude(posterior[v]) < threshold {
                rebased[v]
            } else {
                base_prior_llr[v]
            };
            out.push(x);
            v += 1;
        }
        assert(out@ =~= all);
        out
    }

    /// The posteriors that a leg starts from.
    pub fn build_adaptive_initial_marginal(
        &self,
        phase_prior: &Vec<i64>,
        posterior: &Vec<i64>,
        fixed_target_mask: Option<&Vec<bool>>,
        adaptive_perturbation_llr_threshold: i64,
        reset_marginal: bool,
        draws: &AdaptiveDraws,
    ) -> (r: Vec<i64>)
        requires
            self.wf(),
            phase_prior.len() == posterior.len(),
            are_ratios(phase_prior@),
            are_ratios(posterior@),
            adaptive_perturbation_llr_threshold > i64::MIN,
        ensures
            r@ == self.biased_start(
                phase_prior@,
                posterior@,
                mask_of(fixed_target_mask),
                adaptive_perturbation_llr_threshold as int,
                reset_marginal,
                *draws,
            ),
            r.len() == phase_prior.len(),
            are_ratios(r@),
    {
        let start: Vec<i64> = self.initial_marginal(phase_prior, posterior, reset_marginal);
        match self.config.adaptive_perturbation_target {
            AdaptivePerturbationTarget::Posterior | AdaptivePerturbationTarget::Both =>
            self.apply_adaptive_perturbation(
                &start,
                posterior,
                fixed_target_mask,
                adaptive_perturbation_llr_threshold,
                draws,
            ),
            _ => start,
        }
    }

    /// Fixes the variables to be biased, if they are to be.
    pub fn ensure_adaptive_target_mask(
        &self,
        child: &mut PopulationMember,
        adaptive_perturbation_llr_threshold: i64,
    )
        requires
            are_ratios(old(child)@.posterior),
            adaptive_perturbation_llr_threshold > i64::MIN,
        ensures
            final(child)@ == self.masked(old(child)@, adaptive_perturbation_llr_threshold as int),
    {
        let ghost m = child@;
        if self.config.adaptive_perturbation_variable_base_mode
            != AdaptivePerturbationVariableBaseMode::FirstLegPosteriorFixed
            || child.adaptive_target_mask.is_some() {
            return;
        }
        let threshold: i64 = magnitude(adaptive_perturbation_llr_threshold);
        let mut mask: Vec<bool> = Vec::new();
        let mut v: usize = 0;
        while v < child.posterior.len()
            invariant
                child@ == m,
                are_ratios(m.posterior),
                threshold == abs(adaptive_perturbation_llr_threshold as int),
                v <= m.posterior.len(),
                mask.len() == v,
                forall|u: int| 0 <= u < v ==> mask[u] == (abs(m.posterior[u] as int) < threshold),
            decreases m.posterior.len() - v,
        {
            mask.push(magnitude(child.posterior[v]) < threshold);
            v += 1;
        }
        child.adaptive_target_mask = Some(mask);
        proof {
            assert(mask@ =~= Seq::new(
                m.posterior.len(),
                |u: int|
                    abs(m.posterior[u] as int) < abs(adaptive_perturbation_llr_threshold as int),
            ));
            assert(child@ =~= self.masked(m, adaptive_perturbation_llr_threshold as int));
        }
    }

    /// Makes a member ready for a leg and gives the priors of the leg.
    pub fn build_generation_phase_prior(
        &self,
        base_prior_llr: &Vec<i64>,
        child: &mut PopulationMember,
        adaptive_perturbation_llr_threshold: i64,
        draws: &MemberDraws,
    ) -> (r: Vec<i64>)
        requires
            self.wf(),
            self.fits(base_prior_llr@),
            old(child)@.wf(self.cols()),
            adaptive_perturbation_llr_threshold > i64::MIN,
        ensures
            final(child)@ == self.readied(
                base_prior_llr@,
                old(child)@,
                adaptive_perturbation_llr_threshold as int,
                *draws,
            ),
            final(child)@.wf(self.cols()),
            r@ == self.leg_prior(final(child)@),
            self.fits(r@),
    {
        let ghost threshold = adaptive_perturbation_llr_threshold as int;
        let ghost start = child@;
        self.ensure_adaptive_target_mask(child, adaptive_perturbation_llr_threshold);
        let ghost m = child@;
        let previous: Option<&Vec<i64>> = match &child.adaptive_prior {
            Some(p) => Some(p),
            None => None,
        };
        let mask: Option<&Vec<bool>> = match &child.adaptive_target_mask {
            Some(b) => Some(b),
            None => None,
        };
        assert(ratios_of(previous) == m.adaptive_prior);
        assert(mask_of(mask) == m.mask);
        let adaptive_prior: Vec<i64> = self.build_adaptive_prior(
            base_prior_llr,
            previous,
            mask,
            &child.posterior,
            adaptive_perturbation_llr_threshold,
            &draws.prior,
        );
        child.adaptive_prior = Some(adaptive_prior.clone());
        if !self.config.continue_perturbation {
            assert(child@ =~= self.readied(base_prior_llr@, start, threshold, *draws));
            return adaptive_prior;
        }
        let bare: bool = match child.perturbation_state {
            PerturbationState::Unperturbed => true,
            _ => false,
        };
        let anew: bool = self.config.sequential_mc || self.config.perturbation_method
            == PerturbationMethod::Resample || bare;
        if anew {
            child.perturbation_state = perturbation_state(
                self.config.init_perturbation_mode,
                &draws.perturbation,
            );
        }
        assert(child@ =~= self.readied(base_prior_llr@, start, threshold, *draws));
        apply_perturbation_state(
            &adaptive_prior,
            &child.perturbation_state,
            self.base_min_sum_config.unit(),
        )
    }

    /// The memory strengths of a leg: fixed or drawn.
    pub fn sample_default_memory_strength(&self, n_variables: usize, leg: &LegDraws) -> (r: Vec<
        i64,
    >)
        requires
            self.wf(),
        ensures
            r@ == self.default_memory(n_variables as nat, *leg),
            forall|v: int| 0 <= v < r.len() ==> is_gain(#[trigger] r[v]),
    {
        let mut out: Vec<i64> = Vec::new();
        let mut v: usize = 0;
        while v < n_variables
            invariant
                self.wf(),
                v <= n_variables,
                out.len() == v,
                forall|u: int|
                    0 <= u < v ==> out[u] == self.default_memory(n_variables as nat, *leg)[u]
                        && is_gain(#[trigger] out[u]),
            decreases n_variables - v,
        {
            let g: i64 = match self.config.gamma_mode {
                GammaMode::Fixed => self.config.gamma_fixed,
                GammaMode::IntervalRandomPerVariable => draw_gamma(leg, v),
            };
            out.push(g);
            v += 1;
        }
        assert(out@ =~= self.default_memory(n_variables as nat, *leg));
        out
    }

    /// The memory strengths that a leg draws.
    pub fn sample_relay_gamma(&self, n_variables: usize, leg: &LegDraws) -> (r: Vec<i64>)
        ensures
            r@ == drawn_memory(n_variables as nat, *leg),
            forall|v: int| 0 <= v < r.len() ==> is_gain(#[trigger] r[v]),
    {
        let mut out: Vec<i64> = Vec::new();
        let mut v: usize = 0;
        while v < n_variables
            invariant
                v <= n_variables,
                out.len() == v,
                forall|u: int|
                    0 <= u < v ==> out[u] == drawn_memory(n_variables as nat, *leg)[u] && is_gain(
                        #[trigger] out[u],
                    ),
            decreases n_variables - v,
        {
            out.push(draw_gamma(leg, v));
            v += 1;
        }
        assert(out@ =~= drawn_memory(n_variables as nat, *leg));
        out
    }

    /// The memory strength of variable `v` next to a check that is not explained.
    pub fn sample_adaptive_adjacent_gamma(
        &self,
        posterior: &Vec<i64>,
        draws: &MemberDraws,
        v: usize,
    ) -> (r: i64)
        requires
            self.wf(),
            v < posterior.len(),
            are_ratios(posterior@),
        ensures
            r == self.adjacent_gamma(posterior@, *draws, v as int),
            is_gain(r),
    {
        let g: i64 = bound_value_magnitude(draw(&draws.adjacent_gammas, v), GAIN_LIMIT);
        match self.config.adaptive_memory_mode {
            AdaptiveMemoryMode::DirectInterval => g,
            AdaptiveMemoryMode::ProbabilisticFlip => {
                let one: i64 = self.base_min_sum_config.unit();
                let m: i64 = magnitude(posterior[v]);
                let confidence: i64 = if m < 1 {
                    1
                } else {
                    m
                };
                let wait: i64 = draw(&draws.adjacent_waits, v);
                let zeta: i64 = self.config.adaptive_memory_zeta;
                proof {
                    lemma_product_bound(
                        confidence as int,
                        wait as int,
                        0x8000_0000_0000_0000,
                        0x8000_0000_0000_0000,
                    );
                    lemma_product_bound(
                        zeta as int,
                        one as int,
                        0x8000_0000_0000_0000,
                        0x2000_0000_0000_0000,
                    );
                }
                if (confidence as i128) * (wait as i128) > (zeta as i128) * (one as i128) {
                    -magnitude(g)
                } else {
                    magnitude(g)
                }
            },
        }
    }

    /// The memory strengths of a leg of a member.
    pub fn sample_member_memory_strength(
        &self,
        posterior: &Vec<i64>,
        residual_adjacent_variable_indices: &Vec<usize>,
        draws: &MemberDraws,
        leg: &LegDraws,
    ) -> (r: Vec<i64>)
        requires
            self.wf(),
            are_ratios(posterior@),
        ensures
            r@ == self.member_memory(
                posterior@,
                residual_adjacent_variable_indices@,
                *draws,
                *leg,
            ),
            forall|v: int| 0 <= v < r.len() ==> is_gain(#[trigger] r[v]),
    {
        let mut gamma: Vec<i64> = self.sample_default_memory_strength(posterior.len(), leg);
        if !self.config.adaptive_memory {
            return gamma;
        }
        let ghost base = gamma@;
        let ghost adjacent = residual_adjacent_variable_indices@;
        let ghost all = self.member_memory(posterior@, adjacent, *draws, *leg);
        let mut k: usize = 0;
        while k < residual_adjacent_variable_indices.len()
            invariant
                self.wf(),
                self.config.adaptive_memory,
                are_ratios(posterior@),
                adjacent == residual_adjacent_variable_indices@,
                base == self.default_memory(posterior@.len(), *leg),
                base.len() == posterior.len(),
                all == self.member_memory(posterior@, adjacent, *draws, *leg),
                k <= adjacent.len(),
                gamma.len() == posterior.len(),
                forall|v: int|
                    0 <= v < gamma.len() ==> (gamma[v] == base[v] || gamma[v] == all[v])
                        && is_gain(#[trigger] gamma[v]),
                forall|v: int|
                    0 <= v < gamma.len() && !adjacent.contains(v as usize) ==> (
                    #[trigger] gamma[v]) == base[v],
                forall|j: int|
                    0 <= j < k && adjacent[j] < gamma.len() ==> gamma[(#[trigger] adjacent[j])
                        as int] == all[adjacent[j] as int],
            decreases adjacent.len() - k,
        {
            let idx: usize = residual_adjacent_variable_indices[k];
            if idx < gamma.len() {
                let g: i64 = self.sample_adaptive_adjacent_gamma(posterior, draws, idx);
                assert(adjacent[k as int] == idx);
                assert(adjacent.contains(idx));
                assert(all[idx as int] == g);
                gamma.set(idx, g);
            }
            k += 1;
        }
        proof {
            assert forall|v: int| 0 <= v < gamma.len() implies gamma@[v] == all[v] by {
                if adjacent.contains(v as usize) {
                    let j = choose|j: int| 0 <= j < adjacent.len() && adjacent[j] == v as usize;
                    assert(adjacent[j] < gamma.len());
                } else {
                    assert(gamma[v] == base[v]);
                }
            }
            assert(gamma@ =~= all);
        }
        gamma
    }

    /// Whether later legs are plain relay legs.
    pub fn switch_relay_enabled(&self) -> (r: bool)
        ensures
            r == (!self.config.biased_relay_mode && self.config.switch_relay_leg is Some),
    {
        !self.config.biased_relay_mode && self.config.switch_relay_leg.is_some()
    }

    /// Whether leg `relay_leg_idx`, counted from zero, is a plain relay leg.
    pub fn should_use_switched_relay_leg(&self, relay_leg_idx: usize) -> (r: bool)
        ensures
            r == self.switched(relay_leg_idx as nat),
    {
        if !self.switch_relay_enabled() {
            return false;
        }
        match self.config.switch_relay_leg {
            Some(first) => first == 0 || relay_leg_idx >= first - 1,
            None => false,
        }
    }

    /// Whether generation `generation_idx` consists of plain relay legs.
    pub fn should_use_switched_relay_generation(&self, generation_idx: usize) -> (r: bool)
        ensures
            r == self.switched(generation_idx as nat),
    {
        self.should_use_switched_relay_leg(generation_idx)
    }

    /// Leg `leg`, counted from zero, is a plain relay leg.
    pub open spec fn switched(self, leg: nat) -> bool {
        !self.config.biased_relay_mode && match self.config.switch_relay_leg {
            Some(first) => leg + 1 >= first,
            None => false,
        }
    }

    /// The most iterations of a search, as it is reported.
    pub fn max_iter(&self) -> (r: usize)
        requires
            self.wf(),
        ensures
            r == self.config.iteration_limit(),
    {
        proof {
            let c = self.config;
            assert(0 <= c.biased_relay_r_relay * c.biased_relay_r_relay_iter) by (nonlinear_arith);
            assert(0 <= c.g_max * c.t_mem) by (nonlinear_arith);
        }
        if self.config.biased_relay_mode {
            self.config.biased_relay_maximum_round * (self.config.biased_relay_t_0
                + self.config.biased_relay_r_relay * self.config.biased_relay_r_relay_iter)
        } else {
            self.config.t_ms + self.config.g_max * self.config.t_mem
        }
    }
}

/// The memory strengths that a leg draws.
pub open spec fn drawn_memory(n: nat, leg: LegDraws) -> Seq<i64> {
    Seq::new(n, |v: int| gamma_draw(leg, v) as i64)
}

} // verus!
