//! The parameters of the generational search.

use vstd::prelude::*;

use super::evaluate::{are_weights, BETA_LIMIT};
use crate::min_sum::{is_gain, ConfigModel, MinSumDecoderConfig};

verus! {

/// How the first population is perturbed.
#[derive(Clone, Copy, Debug, PartialEq, Eq, Structural)]
pub enum InitPerturbationMode {
    AdditiveGaussian,
    MultiplicativeUniform,
}

/// How parents are chosen.
#[derive(Clone, Copy, Debug, PartialEq, Eq, Structural)]
pub enum SelectionMode {
    Weighted,
    Tournament,
}

/// What parents are weighted by.
#[derive(Clone, Copy, Debug, PartialEq, Eq, Structural)]
pub enum WeightedSelectionMode {
    Softmax,
    Rank,
}

/// Where memory strengths come from.
#[derive(Clone, Copy, Debug, PartialEq, Eq, Structural)]
pub enum GammaMode {
    Fixed,
    IntervalRandomPerVariable,
}

/// How variables next to unexplained checks get their memory strength.
#[derive(Clone, Copy, Debug, PartialEq, Eq, Structural)]
pub enum AdaptiveMemoryMode {
    ProbabilisticFlip,
    DirectInterval,
}

/// How the first population is decoded.
#[derive(Clone, Copy, Debug, PartialEq, Eq, Structural)]
pub enum InitStrategy {
    MinSum,
    MemBp,
}

/// What becomes of perturbations from generation to generation.
#[derive(Clone, Copy, Debug, PartialEq, Eq, Structural)]
pub enum PerturbationMethod {
    Fixed,
    Resample,
}

/// How a bias is applied to a ratio.
#[derive(Clone, Copy, Debug, PartialEq, Eq, Structural)]
pub enum AdaptivePerturbationBiasMode {
    Additive,
    Scale,
}

/// Where the factor of a bias comes from.
#[derive(Clone, Copy, Debug, PartialEq, Eq, Structural)]
pub enum AdaptivePerturbationFactorMode {
    Fixed,
    UniformPerVariable,
}

/// The direction of a bias.
#[derive(Clone, Copy, Debug, PartialEq, Eq, Structural)]
pub enum AdaptivePerturbationSignMode {
    Random,
    AlwaysNegative,
}

/// What a bias is applied to.
#[derive(Clone, Copy, Debug, PartialEq, Eq, Structural)]
pub enum AdaptivePerturbationTarget {
    Prior,
    Posterior,
    Both,
    MemoryStrength,
}

/// The priors that a bias starts from.
#[derive(Clone, Copy, Debug, PartialEq, Eq, Structural)]
pub enum AdaptivePerturbationPriorBaseMode {
    Initial,
    PreviousBiased,
}

/// The posteriors by which biased variables are chosen.
#[derive(Clone, Copy, Debug, PartialEq, Eq, Structural)]
pub enum AdaptivePerturbationVariableBaseMode {
    PreviousLegPosterior,
    FirstLegPosteriorFixed,
}

/// How the threshold of confidence moves.
#[derive(Clone, Copy, Debug, PartialEq, Eq, Structural)]
pub enum AdaptivePerturbationThresholdMode {
    Constant,
    GenerationLog10Iter,
}

/// Which of the accepted solutions is taken.
#[derive(Clone, Copy, Debug, PartialEq, Eq, Structural)]
pub enum FinalSolutionSelection {
    Fastest,
    MinWeight,
}

/// Whether the search goes on after the first solution.
#[derive(Clone, Copy, Debug, PartialEq, Eq, Structural)]
pub enum SolutionCollectionMode {
    FirstSuccess,
    PostSelection,
}

/// The parameters of the generational search. Ratios, factors and weights are fixed-point
/// numbers of the unit of the min-sum decoder.
#[derive(Clone, Debug)]
pub struct SLGMBPDecoderConfig {
    /// The size of the first population.
    pub ensemble_size: usize,
    /// The most iterations of the first phase.
    pub t_ms: usize,
    /// The most iterations of a later phase.
    pub t_mem: usize,
    /// The number of generations.
    pub g_max: usize,
    /// The cost of an unexplained check.
    pub fitness_alpha: i64,
    /// The weight of the confidence.
    pub fitness_beta: i64,
    /// The weight of an uncertain variable.
    pub fitness_low_llr_mu: i64,
    /// The largest magnitude of the posterior of an uncertain variable.
    pub fitness_low_llr_threshold: i64,
    /// What a carried posterior is multiplied by.
    pub eta: i64,
    /// The magnitude of a posterior below which it may mutate.
    pub mutation_llr_abs_threshold: i64,
    /// The number of members that survive unchanged.
    pub elite_count: usize,
    /// Whether a generation consists of copies of the elite.
    pub sequential_mc: bool,
    /// The number of entrants of a tournament, at least two.
    pub tournament_size: usize,
    pub selection_mode: SelectionMode,
    pub weighted_selection_mode: WeightedSelectionMode,
    /// The weight of a member by its distance from the best score, in steps.
    pub softmax_weights: Vec<u64>,
    /// The length of such a step.
    pub softmax_step: i64,
    pub init_perturbation_mode: InitPerturbationMode,
    pub gamma_mode: GammaMode,
    /// The memory strength of later phases where it is not drawn.
    pub gamma_fixed: i64,
    pub adaptive_memory: bool,
    /// How fast the chance of a negative memory strength falls with confidence.
    pub adaptive_memory_zeta: i64,
    pub adaptive_memory_mode: AdaptiveMemoryMode,
    pub init_strategy: InitStrategy,
    /// The memory strength of the first phase and of constant legs.
    pub init_gamma: i64,
    /// What is taken off every prior.
    pub initial_prior_bias: i64,
    pub adaptive_perturbation: bool,
    pub adaptive_perturbation_llr_threshold: i64,
    pub adaptive_perturbation_llr_threshold_mode: AdaptivePerturbationThresholdMode,
    pub adaptive_perturbation_llr_threshold_min: i64,
    pub adaptive_perturbation_llr_threshold_max: i64,
    /// How much the threshold grows after a generation, by its iterations. The last value
    /// stays.
    pub adaptive_perturbation_llr_threshold_increments: Vec<i64>,
    pub adaptive_perturbation_factor: i64,
    /// The logarithm of the factor.
    pub adaptive_perturbation_log_factor: i64,
    pub adaptive_perturbation_factor_mode: AdaptivePerturbationFactorMode,
    pub adaptive_perturbation_bias_mode: AdaptivePerturbationBiasMode,
    pub adaptive_perturbation_sign_mode: AdaptivePerturbationSignMode,
    pub adaptive_perturbation_target: AdaptivePerturbationTarget,
    pub adaptive_perturbation_prior_base_mode: AdaptivePerturbationPriorBaseMode,
    pub adaptive_perturbation_variable_base_mode: AdaptivePerturbationVariableBaseMode,
    pub adaptive_perturbation_reset_on_threshold_exit: bool,
    pub continue_perturbation: bool,
    pub perturbation_method: PerturbationMethod,
    pub reset_marginal: bool,
    /// How much of a carried posterior is kept, up to one.
    pub marginal_carry_damping_factor: i64,
    /// The magnitude from which a posterior is carried; all are if absent.
    pub marginal_carry_llr_abs_threshold: Option<i64>,
    /// The leg, counted from one, from which legs are plain relay legs.
    pub switch_relay_leg: Option<usize>,
    /// Whether rounds of biased relay replace the generations.
    pub biased_relay_mode: bool,
    pub biased_relay_t_0: usize,
    pub biased_relay_r_relay: usize,
    pub biased_relay_r_relay_iter: usize,
    pub biased_relay_maximum_round: usize,
    /// Whether variables may drop their messages after the first phase.
    pub enable_variable_message_drop: bool,
    pub drop_llr_threshold: i64,
    pub solution_collection_mode: SolutionCollectionMode,
    /// The number of solutions to collect, at least one.
    pub n_solutions: usize,
    pub final_solution_selection: FinalSolutionSelection,
}

impl SLGMBPDecoderConfig {
    /// The parameters are in range, where the unit is `one`.
    pub open spec fn wf(self, one: i64) -> bool {
        &&& are_weights(
            self.fitness_alpha,
            self.fitness_beta,
            self.fitness_low_llr_mu,
            self.fitness_low_llr_threshold,
            one,
        )
        &&& self.ensemble_size <= u32::MAX
        &&& self.t_ms <= u32::MAX
        &&& is_gain(self.init_gamma)
        &&& is_gain(self.gamma_fixed)
        &&& self.mutation_llr_abs_threshold > i64::MIN
        &&& self.can_weigh()
        &&& self.adaptive_perturbation_llr_threshold > i64::MIN
        &&& self.adaptive_perturbation_llr_threshold_min > i64::MIN
        &&& self.adaptive_perturbation_llr_threshold_max > i64::MIN
        &&& self.initial_prior_bias > i64::MIN
        &&& self.marginal_carry_llr_abs_threshold != Some(i64::MIN)
        &&& self.drop_llr_threshold > i64::MIN
        &&& self.t_ms + self.biased_relay_t_0 + self.g_max * self.t_mem + self.t_mem <= usize::MAX
        &&& self.round_limit() <= usize::MAX
        &&& self.biased_relay_mode ==> self.t_ms + self.biased_relay_t_0 + self.rounds() * (
        self.ensemble_size * self.round_limit()) + self.round_limit() <= usize::MAX
        &&& self.iteration_limit() <= usize::MAX
    }

    /// Members can be weighted by their scores.
    pub open spec fn can_weigh(self) -> bool {
        &&& self.softmax_weights.len() > 0
        &&& forall|k: int| 0 <= k < self.softmax_weights.len() ==> 1 <= (
        #[trigger] self.softmax_weights[k]) <= u32::MAX
        &&& self.softmax_step > 0
    }

    /// The most iterations of a member in one round of biased relay.
    pub open spec fn round_limit(self) -> int {
        self.biased_relay_t_0 + self.biased_relay_r_relay * self.biased_relay_r_relay_iter
    }

    /// The number of rounds of biased relay.
    pub open spec fn rounds(self) -> int {
        if self.biased_relay_maximum_round < 1 {
            1
        } else {
            self.biased_relay_maximum_round as int
        }
    }

    /// The most iterations of a search, as it is reported.
    pub open spec fn iteration_limit(self) -> int {
        if self.biased_relay_mode {
            self.biased_relay_maximum_round * (self.biased_relay_t_0 + self.biased_relay_r_relay
                * self.biased_relay_r_relay_iter)
        } else {
            self.t_ms + self.g_max * self.t_mem
        }
    }

    /// The min-sum decoder of a phase of at most `max_iter` iterations.
    pub open spec fn template(self, base: ConfigModel, max_iter: usize, drop: bool) -> ConfigModel {
        ConfigModel {
            priors: base.priors,
            max_iter,
            alpha: None,
            alpha_schedule: Seq::empty(),
            gamma0: None,
            scale: base.scale,
            max_data: None,
            drop_enabled: drop,
            drop_threshold: self.drop_llr_threshold,
            whole_units: false,
        }
    }

    /// The min-sum decoder of a phase of at most `max_iter` iterations: no damping, no
    /// memory of its own, no limit to ratios.
    pub fn min_sum_template(
        &self,
        base: &MinSumDecoderConfig,
        max_iter: usize,
        enable_variable_message_drop: bool,
    ) -> (r: MinSumDecoderConfig)
        ensures
            r@ == self.template(base@, max_iter, enable_variable_message_drop),
    {
        let r = MinSumDecoderConfig {
            log_prior_ratios: base.log_prior_ratios.clone(),
            max_iter,
            alpha: None,
            alpha_schedule: Vec::new(),
            gamma0: None,
            data_scale_value: base.data_scale_value,
            max_data_value: None,
            enable_variable_message_drop,
            drop_llr_threshold: self.drop_llr_threshold,
            whole_units: false,
        };
        assert(r@ =~= self.template(base@, max_iter, enable_variable_message_drop));
        r
    }

    /// The parameters that a search starts from, where the unit is `one`.
    pub fn with_unit(one: i64) -> (r: Self)
        requires
            1 <= one <= BETA_LIMIT,
        ensures
            r.wf(one),
            r.ensemble_size == 64,
            r.t_ms == 16,
            r.t_mem == 16,
            r.g_max == 30,
            r.fitness_alpha == 1000 * one,
            r.fitness_beta == one,
            r.fitness_low_llr_mu == 0,
            r.fitness_low_llr_threshold == 0,
            r.eta == one,
            r.mutation_llr_abs_threshold == one / 4,
            r.elite_count == 2,
            !r.sequential_mc,
            r.tournament_size == 3,
            r.selection_mode == SelectionMode::Weighted,
            r.weighted_selection_mode == WeightedSelectionMode::Softmax,
            r.softmax_weights@ == seq![1u64],
            r.softmax_step == 1,
            r.init_perturbation_mode == InitPerturbationMode::AdditiveGaussian,
            r.gamma_mode == GammaMode::Fixed,
            r.gamma_fixed == one / 8,
            !r.adaptive_memory,
            r.adaptive_memory_zeta == one,
            r.adaptive_memory_mode == AdaptiveMemoryMode::ProbabilisticFlip,
            r.init_strategy == InitStrategy::MinSum,
            r.init_gamma == one / 8,
            r.initial_prior_bias == 0,
            !r.adaptive_perturbation,
            r.adaptive_perturbation_llr_threshold == 0,
            r.adaptive_perturbation_llr_threshold_mode
                == AdaptivePerturbationThresholdMode::Constant,
            r.adaptive_perturbation_llr_threshold_min == 0,
            r.adaptive_perturbation_llr_threshold_max == 0,
            r.adaptive_perturbation_llr_threshold_increments.len() == 0,
            r.adaptive_perturbation_factor == one,
            r.adaptive_perturbation_log_factor == 0,
            r.adaptive_perturbation_factor_mode == AdaptivePerturbationFactorMode::Fixed,
            r.adaptive_perturbation_bias_mode == AdaptivePerturbationBiasMode::Additive,
            r.adaptive_perturbation_sign_mode == AdaptivePerturbationSignMode::Random,
            r.adaptive_perturbation_target == AdaptivePerturbationTarget::Prior,
            r.adaptive_perturbation_prior_base_mode == AdaptivePerturbationPriorBaseMode::Initial,
            r.adaptive_perturbation_variable_base_mode
                == AdaptivePerturbationVariableBaseMode::PreviousLegPosterior,
            !r.adaptive_perturbation_reset_on_threshold_exit,
            !r.continue_perturbation,
            r.perturbation_method == PerturbationMethod::Fixed,
            !r.reset_marginal,
            r.marginal_carry_damping_factor == one,
            r.marginal_carry_llr_abs_threshold is None,
            r.switch_relay_leg is None,
            !r.biased_relay_mode,
            r.biased_relay_t_0 == 16,
            r.biased_relay_r_relay == 0,
            r.biased_relay_r_relay_iter == 0,
            r.biased_relay_maximum_round == 0,
            !r.enable_variable_message_drop,
            r.drop_llr_threshold == 0,
            r.solution_collection_mode == SolutionCollectionMode::FirstSuccess,
            r.n_solutions == 1,
            r.final_solution_selection == FinalSolutionSelection::Fastest,
    {
        let mut softmax_weights: Vec<u64> = Vec::new();
        softmax_weights.push(1);
        let r = SLGMBPDecoderConfig {
            ensemble_size: 64,
            t_ms: 16,
            t_mem: 16,
            g_max: 30,
            fitness_alpha: 1000 * one,
            fitness_beta: one,
            fitness_low_llr_mu: 0,
            fitness_low_llr_threshold: 0,
            eta: one,
            mutation_llr_abs_threshold: one / 4,
            elite_count: 2,
            sequential_mc: false,
            tournament_size: 3,
            selection_mode: SelectionMode::Weighted,
            weighted_selection_mode: WeightedSelectionMode::Softmax,
            softmax_weights,
            softmax_step: 1,
            init_perturbation_mode: InitPerturbationMode::AdditiveGaussian,
            gamma_mode: GammaMode::Fixed,
            gamma_fixed: one / 8,
            adaptive_memory: false,
            adaptive_memory_zeta: one,
            adaptive_memory_mode: AdaptiveMemoryMode::ProbabilisticFlip,
            init_strategy: InitStrategy::MinSum,
            init_gamma: one / 8,
            initial_prior_bias: 0,
            adaptive_perturbation: false,
            adaptive_perturbation_llr_threshold: 0,
            adaptive_perturbation_llr_threshold_mode: AdaptivePerturbationThresholdMode::Constant,
            adaptive_perturbation_llr_threshold_min: 0,
            adaptive_perturbation_llr_threshold_max: 0,
            adaptive_perturbation_llr_threshold_increments: Vec::new(),
            adaptive_perturbation_factor: one,
            adaptive_perturbation_log_factor: 0,
            adaptive_perturbation_factor_mode: AdaptivePerturbationFactorMode::Fixed,
            adaptive_perturbation_bias_mode: AdaptivePerturbationBiasMode::Additive,
            adaptive_perturbation_sign_mode: AdaptivePerturbationSignMode::Random,
            adaptive_perturbation_target: AdaptivePerturbationTarget::Prior,
            adaptive_perturbation_prior_base_mode: AdaptivePerturbationPriorBaseMode::Initial,
            adaptive_perturbation_variable_base_mode:
                AdaptivePerturbationVariableBaseMode::PreviousLegPosterior,
            adaptive_perturbation_reset_on_threshold_exit: false,
            continue_perturbation: false,
            perturbation_method: PerturbationMethod::Fixed,
            reset_marginal: false,
            marginal_carry_damping_factor: one,
            marginal_carry_llr_abs_threshold: None,
            switch_relay_leg: None,
            biased_relay_mode: false,
            biased_relay_t_0: 16,
            biased_relay_r_relay: 0,
            biased_relay_r_relay_iter: 0,
            biased_relay_maximum_round: 0,
            enable_variable_message_drop: false,
            drop_llr_threshold: 0,
            solution_collection_mode: SolutionCollectionMode::FirstSuccess,
            n_solutions: 1,
            final_solution_selection: FinalSolutionSelection::Fastest,
        };
        assert(r.softmax_weights@ =~= seq![1u64]);
        r
    }
}

} // verus!
