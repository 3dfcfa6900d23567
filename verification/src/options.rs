//! Options by their names, and what a set of options has to meet.

use vstd::prelude::*;
use vstd::string::StrSliceExecFns;

use crate::adaptive_relay::{
    AdaptiveRelayPerturbationMode, AdaptiveRelayUpdateMode, PosteriorMarginalClampMode,
};
use crate::clip_bp::SignUpdateMode;
use crate::disordered_bp::{BiasApplyMode, SamplingMode};
use crate::dual_relay::DualRelayMixMode;
use crate::ensemble_decoder::{EnsembleMode, RepulsiveConfig, SelectionStrategy};
use crate::lsd::LsdMethod;
use crate::names::same_text;
use crate::rejection_decoder::{ReweightingMode, ReweightingSelection};
use crate::relay::StoppingCriterion;
use crate::slg_mbp::config::{
    AdaptiveMemoryMode, AdaptivePerturbationPriorBaseMode, AdaptivePerturbationSignMode,
    AdaptivePerturbationTarget, AdaptivePerturbationThresholdMode,
    AdaptivePerturbationVariableBaseMode, GammaMode, InitPerturbationMode, InitStrategy,
    PerturbationMethod, SLGMBPDecoderConfig, SelectionMode, WeightedSelectionMode,
};

verus! {

/// How the priors of the members of an ensemble are perturbed.
#[derive(Clone, Copy, Debug, PartialEq, Eq, Structural)]
pub enum PriorModifyMethod {
    /// Each probability is raised to a power.
    Ratio,
    /// Each probability is multiplied by a factor with a normal logarithm.
    LogNormal,
    /// Each probability is multiplied by a uniform factor.
    LinearSampling,
}

/// How perturbations grow from member to member.
#[derive(Clone, Copy, Debug, PartialEq, Eq, Structural)]
pub enum PerturbationScale {
    Linear,
    Exponential,
}

/// Why options are not accepted.
#[derive(Clone, Copy, Debug, PartialEq, Eq, Structural)]
pub enum OptionError {
    /// No such way to find a sign.
    UnknownSignMode,
    /// The probability of a positive sign is not between zero and one.
    PositiveSignProbability,
    /// The damping factor of carried marginals is not between zero and one.
    CarryDampingFactor,
    /// The threshold of carried marginals is negative, and not the one that stands for all
    /// variables.
    CarryThreshold,
    /// The step of bit flipping is not an even number from two on.
    FlippingStep,
    /// There are fewer column permutations than members.
    ColumnPermutations,
    /// There are fewer row permutations than members.
    RowPermutations,
}

/// The code of a character, that of the small letter for a capital one.
pub open spec fn small(c: char) -> int {
    if 'A' <= c <= 'Z' {
        c as int + 32
    } else {
        c as int
    }
}

/// `text` is `name`, capital letters or small.
pub open spec fn named(text: Seq<char>, name: Seq<char>) -> bool {
    &&& text.len() == name.len()
    &&& forall|i: int| 0 <= i < text.len() ==> small(#[trigger] text[i]) == name[i] as int
}

/// Whether `text` is `name`, capital letters or small.
pub fn is_named(text: &str, name: &str) -> (r: bool)
    ensures
        r == named(text@, name@),
{
    let n: usize = text.unicode_len();
    if n != name.unicode_len() {
        return false;
    }
    let mut i: usize = 0;
    while i < n
        invariant
            n == text@.len() == name@.len(),
            i <= n,
            forall|k: int| 0 <= k < i ==> small(#[trigger] text@[k]) == name@[k] as int,
        decreases n - i,
    {
        let c: char = text.get_char(i);
        let d: char = name.get_char(i);
        let code: u32 = if 'A' <= c && c <= 'Z' {
            c as u32 + 32
        } else {
            c as u32
        };
        if code != d as u32 {
            assert(small(text@[i as int]) != name@[i as int] as int);
            return false;
        }
        i += 1;
    }
    true
}

/// How the first population is perturbed, by its name.
pub open spec fn init_perturbation_mode_of(text: Seq<char>) -> InitPerturbationMode {
    if named(text, "multiplicative_uniform"@)
        || named(text, "uniform"@)
        || named(text, "option_b"@)
    {
        InitPerturbationMode::MultiplicativeUniform
    } else {
        InitPerturbationMode::AdditiveGaussian
    }
}

/// How the first population is perturbed.
pub fn init_perturbation_mode(text: &str) -> (r: InitPerturbationMode)
    ensures
        r == init_perturbation_mode_of(text@),
{
    if is_named(text, "multiplicative_uniform")
        || is_named(text, "uniform")
        || is_named(text, "option_b")
    {
        InitPerturbationMode::MultiplicativeUniform
    } else {
        InitPerturbationMode::AdditiveGaussian
    }
}

/// How parents are chosen, by its name.
pub open spec fn selection_mode_of(text: Seq<char>) -> SelectionMode {
    if named(text, "tournament"@) || named(text, "option_b"@) {
        SelectionMode::Tournament
    } else {
        SelectionMode::Weighted
    }
}

/// How parents are chosen.
pub fn selection_mode(text: &str) -> (r: SelectionMode)
    ensures
        r == selection_mode_of(text@),
{
    if is_named(text, "tournament") || is_named(text, "option_b") {
        SelectionMode::Tournament
    } else {
        SelectionMode::Weighted
    }
}

/// What parents are weighted by, by its name.
pub open spec fn weighted_selection_mode_of(text: Seq<char>) -> WeightedSelectionMode {
    if named(text, "rank"@) {
        WeightedSelectionMode::Rank
    } else {
        WeightedSelectionMode::Softmax
    }
}

/// What parents are weighted by.
pub fn weighted_selection_mode(text: &str) -> (r: WeightedSelectionMode)
    ensures
        r == weighted_selection_mode_of(text@),
{
    if is_named(text, "rank") {
        WeightedSelectionMode::Rank
    } else {
        WeightedSelectionMode::Softmax
    }
}

/// How the first population is decoded, by its name.
pub open spec fn init_strategy_of(text: Seq<char>) -> InitStrategy {
    if named(text, "mem-bp"@) || named(text, "mem_bp"@) || named(text, "membp"@) {
        InitStrategy::MemBp
    } else {
        InitStrategy::MinSum
    }
}

/// How the first population is decoded.
pub fn init_strategy(text: &str) -> (r: InitStrategy)
    ensures
        r == init_strategy_of(text@),
{
    if is_named(text, "mem-bp") || is_named(text, "mem_bp") || is_named(text, "membp") {
        InitStrategy::MemBp
    } else {
        InitStrategy::MinSum
    }
}

/// What becomes of perturbations, by its name.
pub open spec fn perturbation_method_of(text: Seq<char>) -> PerturbationMethod {
    if named(text, "resample"@) {
        PerturbationMethod::Resample
    } else {
        PerturbationMethod::Fixed
    }
}

/// What becomes of perturbations.
pub fn perturbation_method(text: &str) -> (r: PerturbationMethod)
    ensures
        r == perturbation_method_of(text@),
{
    if is_named(text, "resample") {
        PerturbationMethod::Resample
    } else {
        PerturbationMethod::Fixed
    }
}

/// Where memory strengths come from, by its name.
pub open spec fn gamma_mode_of(text: Seq<char>) -> GammaMode {
    if named(text, "interval_random"@)
        || named(text, "interval_random_per_generation"@)
        || named(text, "interval_random_per_variable"@)
        || named(text, "random_interval"@)
    {
        GammaMode::IntervalRandomPerVariable
    } else {
        GammaMode::Fixed
    }
}

/// Where memory strengths come from.
pub fn gamma_mode(text: &str) -> (r: GammaMode)
    ensures
        r == gamma_mode_of(text@),
{
    if is_named(text, "interval_random")
        || is_named(text, "interval_random_per_generation")
        || is_named(text, "interval_random_per_variable")
        || is_named(text, "random_interval")
    {
        GammaMode::IntervalRandomPerVariable
    } else {
        GammaMode::Fixed
    }
}

/// How variables next to unexplained checks get their memory strength, by its name.
pub open spec fn adaptive_memory_mode_of(text: Seq<char>) -> AdaptiveMemoryMode {
    if named(text, "direct_interval"@)
        || named(text, "uniform_interval"@)
        || named(text, "raw_interval"@)
    {
        AdaptiveMemoryMode::DirectInterval
    } else {
        AdaptiveMemoryMode::ProbabilisticFlip
    }
}

/// How variables next to unexplained checks get their memory strength.
pub fn adaptive_memory_mode(text: &str) -> (r: AdaptiveMemoryMode)
    ensures
        r == adaptive_memory_mode_of(text@),
{
    if is_named(text, "direct_interval")
        || is_named(text, "uniform_interval")
        || is_named(text, "raw_interval")
    {
        AdaptiveMemoryMode::DirectInterval
    } else {
        AdaptiveMemoryMode::ProbabilisticFlip
    }
}

/// The direction of a bias, by its name.
pub open spec fn adaptive_sign_mode_of(text: Seq<char>) -> AdaptivePerturbationSignMode {
    if named(text, "always_negative"@)
        || named(text, "negative"@)
        || named(text, "all_negative"@)
    {
        AdaptivePerturbationSignMode::AlwaysNegative
    } else {
        AdaptivePerturbationSignMode::Random
    }
}

/// The direction of a bias.
pub fn adaptive_sign_mode(text: &str) -> (r: AdaptivePerturbationSignMode)
    ensures
        r == adaptive_sign_mode_of(text@),
{
    if is_named(text, "always_negative")
        || is_named(text, "negative")
        || is_named(text, "all_negative")
    {
        AdaptivePerturbationSignMode::AlwaysNegative
    } else {
        AdaptivePerturbationSignMode::Random
    }
}

/// What a bias is applied to, by its name.
pub open spec fn adaptive_target_of(text: Seq<char>) -> AdaptivePerturbationTarget {
    if named(text, "posterior"@)
        || named(text, "marginal"@)
        || named(text, "posterior_marginal"@)
    {
        AdaptivePerturbationTarget::Posterior
    } else if named(text, "both"@) {
        AdaptivePerturbationTarget::Both
    } else {
        AdaptivePerturbationTarget::Prior
    }
}

/// What a bias is applied to.
pub fn adaptive_target(text: &str) -> (r: AdaptivePerturbationTarget)
    ensures
        r == adaptive_target_of(text@),
{
    if is_named(text, "posterior")
        || is_named(text, "marginal")
        || is_named(text, "posterior_marginal")
    {
        AdaptivePerturbationTarget::Posterior
    } else if is_named(text, "both") {
        AdaptivePerturbationTarget::Both
    } else {
        AdaptivePerturbationTarget::Prior
    }
}

/// The priors that a bias starts from, by its name.
pub open spec fn adaptive_prior_base_mode_of(text: Seq<char>) -> AdaptivePerturbationPriorBaseMode {
    if named(text, "previous_biased"@)
        || named(text, "previous"@)
        || named(text, "carry"@)
        || named(text, "cumulative"@)
    {
        AdaptivePerturbationPriorBaseMode::PreviousBiased
    } else {
        AdaptivePerturbationPriorBaseMode::Initial
    }
}

/// The priors that a bias starts from.
pub fn adaptive_prior_base_mode(text: &str) -> (r: AdaptivePerturbationPriorBaseMode)
    ensures
        r == adaptive_prior_base_mode_of(text@),
{
    if is_named(text, "previous_biased")
        || is_named(text, "previous")
        || is_named(text, "carry")
        || is_named(text, "cumulative")
    {
        AdaptivePerturbationPriorBaseMode::PreviousBiased
    } else {
        AdaptivePerturbationPriorBaseMode::Initial
    }
}

/// The posteriors by which biased variables are chosen, by its name.
pub open spec fn adaptive_variable_base_mode_of(text: Seq<char>) -> AdaptivePerturbationVariableBaseMode {
    if named(text, "first_leg_posterior_fixed"@)
        || named(text, "first_leg_fixed"@)
        || named(text, "first_leg"@)
        || named(text, "fixed_first_leg"@)
    {
        AdaptivePerturbationVariableBaseMode::FirstLegPosteriorFixed
    } else {
        AdaptivePerturbationVariableBaseMode::PreviousLegPosterior
    }
}

/// The posteriors by which biased variables are chosen.
pub fn adaptive_variable_base_mode(text: &str) -> (r: AdaptivePerturbationVariableBaseMode)
    ensures
        r == adaptive_variable_base_mode_of(text@),
{
    if is_named(text, "first_leg_posterior_fixed")
        || is_named(text, "first_leg_fixed")
        || is_named(text, "first_leg")
        || is_named(text, "fixed_first_leg")
    {
        AdaptivePerturbationVariableBaseMode::FirstLegPosteriorFixed
    } else {
        AdaptivePerturbationVariableBaseMode::PreviousLegPosterior
    }
}

/// How the threshold of confidence moves, by its name.
pub open spec fn adaptive_threshold_mode_of(text: Seq<char>) -> AdaptivePerturbationThresholdMode {
    if named(text, "generation_log10_iter"@)
        || named(text, "generation_log10"@)
        || named(text, "log10_iter"@)
        || named(text, "dynamic"@)
    {
        AdaptivePerturbationThresholdMode::GenerationLog10Iter
    } else {
        AdaptivePerturbationThresholdMode::Constant
    }
}

/// How the threshold of confidence moves.
pub fn adaptive_threshold_mode(text: &str) -> (r: AdaptivePerturbationThresholdMode)
    ensures
        r == adaptive_threshold_mode_of(text@),
{
    if is_named(text, "generation_log10_iter")
        || is_named(text, "generation_log10")
        || is_named(text, "log10_iter")
        || is_named(text, "dynamic")
    {
        AdaptivePerturbationThresholdMode::GenerationLog10Iter
    } else {
        AdaptivePerturbationThresholdMode::Constant
    }
}

/// When memory strengths are renewed, by its name.
pub open spec fn update_mode_of(text: Seq<char>) -> AdaptiveRelayUpdateMode {
    if named(text, "per-leg"@) || named(text, "per_leg"@) || named(text, "leg"@) {
        AdaptiveRelayUpdateMode::PerLeg
    } else {
        AdaptiveRelayUpdateMode::PerIteration
    }
}

/// When memory strengths are renewed.
pub fn update_mode(text: &str) -> (r: AdaptiveRelayUpdateMode)
    ensures
        r == update_mode_of(text@),
{
    if is_named(text, "per-leg") || is_named(text, "per_leg") || is_named(text, "leg") {
        AdaptiveRelayUpdateMode::PerLeg
    } else {
        AdaptiveRelayUpdateMode::PerIteration
    }
}

/// The distribution of what is added to memory strengths, by its name.
pub open spec fn perturbation_mode_of(text: Seq<char>) -> AdaptiveRelayPerturbationMode {
    if named(text, "gaussian"@) || named(text, "normal"@) {
        AdaptiveRelayPerturbationMode::Gaussian
    } else {
        AdaptiveRelayPerturbationMode::Uniform
    }
}

/// The distribution of what is added to memory strengths.
pub fn perturbation_mode(text: &str) -> (r: AdaptiveRelayPerturbationMode)
    ensures
        r == perturbation_mode_of(text@),
{
    if is_named(text, "gaussian") || is_named(text, "normal") {
        AdaptiveRelayPerturbationMode::Gaussian
    } else {
        AdaptiveRelayPerturbationMode::Uniform
    }
}

/// Whether posteriors are clamped, by its name.
pub open spec fn clamp_mode_of(text: Seq<char>) -> PosteriorMarginalClampMode {
    if named(text, "abs_threshold_clamp"@)
        || named(text, "threshold"@)
        || named(text, "clamp"@)
    {
        PosteriorMarginalClampMode::AbsThresholdClamp
    } else {
        PosteriorMarginalClampMode::NoClamp
    }
}

/// Whether posteriors are clamped.
pub fn clamp_mode(text: &str) -> (r: PosteriorMarginalClampMode)
    ensures
        r == clamp_mode_of(text@),
{
    if is_named(text, "abs_threshold_clamp")
        || is_named(text, "threshold")
        || is_named(text, "clamp")
    {
        PosteriorMarginalClampMode::AbsThresholdClamp
    } else {
        PosteriorMarginalClampMode::NoClamp
    }
}

/// Where the damping or the memory strength of each variable comes from, by its name.
pub open spec fn sampling_mode_of(text: Seq<char>) -> SamplingMode {
    if named(text, "fixed"@) {
        SamplingMode::Fixed
    } else {
        SamplingMode::IntervalRandom
    }
}

/// Where the damping or the memory strength of each variable comes from.
pub fn sampling_mode(text: &str) -> (r: SamplingMode)
    ensures
        r == sampling_mode_of(text@),
{
    if is_named(text, "fixed") {
        SamplingMode::Fixed
    } else {
        SamplingMode::IntervalRandom
    }
}

/// Where the bias of each variable comes from, by its name.
pub open spec fn bias_mode_of(text: Seq<char>) -> SamplingMode {
    if named(text, "interval_random"@) || named(text, "random"@) {
        SamplingMode::IntervalRandom
    } else {
        SamplingMode::Fixed
    }
}

/// Where the bias of each variable comes from.
pub fn bias_mode(text: &str) -> (r: SamplingMode)
    ensures
        r == bias_mode_of(text@),
{
    if is_named(text, "interval_random") || is_named(text, "random") {
        SamplingMode::IntervalRandom
    } else {
        SamplingMode::Fixed
    }
}

/// Which variables are biased, by its name.
pub open spec fn bias_apply_mode_of(text: Seq<char>) -> BiasApplyMode {
    if named(text, "filter"@) {
        BiasApplyMode::Filter
    } else {
        BiasApplyMode::All
    }
}

/// Which variables are biased.
pub fn bias_apply_mode(text: &str) -> (r: BiasApplyMode)
    ensures
        r == bias_apply_mode_of(text@),
{
    if is_named(text, "filter") {
        BiasApplyMode::Filter
    } else {
        BiasApplyMode::All
    }
}

/// How two posteriors are mixed, by its name.
pub open spec fn mix_mode_of(text: Seq<char>) -> DualRelayMixMode {
    if named(text, "weighted_fast"@) || named(text, "weighted-fast"@) {
        DualRelayMixMode::WeightedFast
    } else {
        DualRelayMixMode::NaiveAverage
    }
}

/// How two posteriors are mixed.
pub fn mix_mode(text: &str) -> (r: DualRelayMixMode)
    ensures
        r == mix_mode_of(text@),
{
    if is_named(text, "weighted_fast") || is_named(text, "weighted-fast") {
        DualRelayMixMode::WeightedFast
    } else {
        DualRelayMixMode::NaiveAverage
    }
}

/// Which errors get other priors, by its name.
pub open spec fn reweighting_mode_of(text: Seq<char>) -> ReweightingMode {
    if named(text, "partial"@) {
        ReweightingMode::Partial
    } else {
        ReweightingMode::Full
    }
}

/// Which errors get other priors.
pub fn reweighting_mode(text: &str) -> (r: ReweightingMode)
    ensures
        r == reweighting_mode_of(text@),
{
    if is_named(text, "partial") {
        ReweightingMode::Partial
    } else {
        ReweightingMode::Full
    }
}

/// How some of the errors are chosen, by its name.
pub open spec fn reweighting_selection_of(text: Seq<char>) -> ReweightingSelection {
    if named(text, "prior"@) || named(text, "prior_reweighting"@) {
        ReweightingSelection::Prior
    } else {
        ReweightingSelection::Random
    }
}

/// How some of the errors are chosen.
pub fn reweighting_selection(text: &str) -> (r: ReweightingSelection)
    ensures
        r == reweighting_selection_of(text@),
{
    if is_named(text, "prior") || is_named(text, "prior_reweighting") {
        ReweightingSelection::Prior
    } else {
        ReweightingSelection::Random
    }
}

/// Which estimate of an ensemble is taken, by its name.
pub open spec fn selection_strategy_of(text: Seq<char>) -> SelectionStrategy {
    if named(text, "majority-vote"@) || named(text, "majorityvote"@) {
        SelectionStrategy::MajorityVote
    } else {
        SelectionStrategy::MostLikely
    }
}

/// Which estimate of an ensemble is taken.
pub fn selection_strategy(text: &str) -> (r: SelectionStrategy)
    ensures
        r == selection_strategy_of(text@),
{
    if is_named(text, "majority-vote") || is_named(text, "majorityvote") {
        SelectionStrategy::MajorityVote
    } else {
        SelectionStrategy::MostLikely
    }
}

/// How the members of an ensemble differ, by its name.
pub open spec fn ensemble_mode_of(text: Seq<char>) -> EnsembleMode {
    if named(text, "repulsive"@) {
        EnsembleMode::Repulsive
    } else {
        EnsembleMode::Normal
    }
}

/// How the members of an ensemble differ.
pub fn ensemble_mode(text: &str) -> (r: EnsembleMode)
    ensures
        r == ensemble_mode_of(text@),
{
    if is_named(text, "repulsive") {
        EnsembleMode::Repulsive
    } else {
        EnsembleMode::Normal
    }
}

/// How the priors of members are perturbed, by its name.
pub open spec fn prior_modify_method_of(text: Seq<char>) -> PriorModifyMethod {
    if named(text, "ratio"@) {
        PriorModifyMethod::Ratio
    } else if named(text, "log_normal"@)
        || named(text, "lognormal"@)
        || named(text, "gaussian_log"@)
    {
        PriorModifyMethod::LogNormal
    } else {
        PriorModifyMethod::LinearSampling
    }
}

/// How the priors of members are perturbed.
pub fn prior_modify_method(text: &str) -> (r: PriorModifyMethod)
    ensures
        r == prior_modify_method_of(text@),
{
    if is_named(text, "ratio") {
        PriorModifyMethod::Ratio
    } else if is_named(text, "log_normal")
        || is_named(text, "lognormal")
        || is_named(text, "gaussian_log")
    {
        PriorModifyMethod::LogNormal
    } else {
        PriorModifyMethod::LinearSampling
    }
}

/// How perturbations grow from member to member, by its name.
pub open spec fn perturbation_scale_of(text: Seq<char>) -> PerturbationScale {
    if named(text, "exponential"@) {
        PerturbationScale::Exponential
    } else {
        PerturbationScale::Linear
    }
}

/// How perturbations grow from member to member.
pub fn perturbation_scale(text: &str) -> (r: PerturbationScale)
    ensures
        r == perturbation_scale_of(text@),
{
    if is_named(text, "exponential") {
        PerturbationScale::Exponential
    } else {
        PerturbationScale::Linear
    }
}

/// How the sign of a clipped posterior is found.
pub fn sign_update_mode(text: &str) -> (r: Result<SignUpdateMode, OptionError>)
    ensures
        r == (if named(text@, "naive"@) {
            Ok::<SignUpdateMode, OptionError>(SignUpdateMode::Naive)
        } else if named(text@, "hysteresis"@) {
            Ok(SignUpdateMode::Hysteresis)
        } else if named(text@, "neighbor_only"@) || named(text@, "neighbor-only"@) || named(
            text@,
            "neighboronly"@,
        ) {
            Ok(SignUpdateMode::NeighborOnly)
        } else {
            Err(OptionError::UnknownSignMode)
        }),
{
    if is_named(text, "naive") {
        Ok(SignUpdateMode::Naive)
    } else if is_named(text, "hysteresis") {
        Ok(SignUpdateMode::Hysteresis)
    } else if is_named(text, "neighbor_only") || is_named(text, "neighbor-only") || is_named(
        text,
        "neighboronly",
    ) {
        Ok(SignUpdateMode::NeighborOnly)
    } else {
        Err(OptionError::UnknownSignMode)
    }
}

/// When a relay decoder stops, by its name. Capital letters count.
pub open spec fn stopping_criterion_of(text: Seq<char>, stop_nconv: usize) -> StoppingCriterion {
    if text == "pre_iter"@ {
        StoppingCriterion::PreIter
    } else if text == "nconv"@ {
        StoppingCriterion::NConv { stop_after: stop_nconv }
    } else if text == "all"@ {
        StoppingCriterion::All
    } else {
        StoppingCriterion::NConv { stop_after: 1 }
    }
}

/// When a relay decoder stops. Capital letters count.
pub fn stopping_criterion(text: &str, stop_nconv: usize) -> (r: StoppingCriterion)
    ensures
        r == stopping_criterion_of(text@, stop_nconv),
{
    if same_text(text, "pre_iter") {
        StoppingCriterion::PreIter
    } else if same_text(text, "nconv") {
        StoppingCriterion::NConv { stop_after: stop_nconv }
    } else if same_text(text, "all") {
        StoppingCriterion::All
    } else {
        StoppingCriterion::default()
    }
}

/// When a dual relay decoder stops.
pub fn dual_stopping_criterion(text: &str, stop_nconv: usize) -> (r: StoppingCriterion)
    ensures
        r == (if named(text@, "pre_iter"@) {
            StoppingCriterion::PreIter
        } else if named(text@, "all"@) {
            StoppingCriterion::All
        } else {
            StoppingCriterion::NConv { stop_after: stop_nconv }
        }),
{
    if is_named(text, "pre_iter") {
        StoppingCriterion::PreIter
    } else if is_named(text, "all") {
        StoppingCriterion::All
    } else {
        StoppingCriterion::NConv { stop_after: stop_nconv }
    }
}

/// The method of localized statistics decoding with the given number.
pub fn lsd_method(number: usize) -> (r: LsdMethod)
    ensures
        r is LSD_E <==> number == 1,
        r is LSD_CS <==> number == 2,
        r is LSD_0 <==> number != 1 && number != 2,
{
    if number == 1 {
        LsdMethod::LSD_E
    } else if number == 2 {
        LsdMethod::LSD_CS
    } else {
        LsdMethod::LSD_0
    }
}

/// Whether the shares of a search are in range, where the unit is `one`, and the threshold
/// of carried marginals: absent for minus one, which stands for all variables.
pub open spec fn checked_options(
    positive_sign_prob: int,
    carry_damping_factor: int,
    carry_llr_abs_threshold: i64,
    one: int,
) -> Result<Option<i64>, OptionError> {
    if !(0 <= positive_sign_prob <= one) {
        Err(OptionError::PositiveSignProbability)
    } else if !(0 <= carry_damping_factor <= one) {
        Err(OptionError::CarryDampingFactor)
    } else if carry_llr_abs_threshold >= 0 {
        Ok(Some(carry_llr_abs_threshold))
    } else if carry_llr_abs_threshold == -one {
        Ok(None)
    } else {
        Err(OptionError::CarryThreshold)
    }
}

/// Whether the shares of a search are in range, and the threshold of carried marginals.
pub fn search_options(
    positive_sign_prob: i64,
    carry_damping_factor: i64,
    carry_llr_abs_threshold: i64,
    one: i64,
) -> (r: Result<Option<i64>, OptionError>)
    requires
        one >= 1,
    ensures
        r == checked_options(
            positive_sign_prob as int,
            carry_damping_factor as int,
            carry_llr_abs_threshold,
            one as int,
        ),
{
    if !(0 <= positive_sign_prob && positive_sign_prob <= one) {
        return Err(OptionError::PositiveSignProbability);
    }
    if !(0 <= carry_damping_factor && carry_damping_factor <= one) {
        return Err(OptionError::CarryDampingFactor);
    }
    if carry_llr_abs_threshold >= 0 {
        Ok(Some(carry_llr_abs_threshold))
    } else if carry_llr_abs_threshold == -one {
        Ok(None)
    } else {
        Err(OptionError::CarryThreshold)
    }
}

/// Whether the step of bit flipping is an even number from two on.
pub fn flipping_step(k_step: usize) -> (r: Result<usize, OptionError>)
    ensures
        r == (if k_step >= 2 && k_step % 2 == 0 {
            Ok::<usize, OptionError>(k_step)
        } else {
            Err(OptionError::FlippingStep)
        }),
{
    if k_step < 2 || k_step % 2 != 0 {
        Err(OptionError::FlippingStep)
    } else {
        Ok(k_step)
    }
}

/// How repulsive members are set up, if there are any; what is not given is taken from the
/// parameters that repulsion starts from.
pub open spec fn repulsion(
    mode: EnsembleMode,
    repulsive_size: usize,
    repulsive_gamma_dist: Option<(i64, i64)>,
    abs_llr_threshold: Option<i64>,
    pulse_per_leg: Option<usize>,
    start_leg: Option<usize>,
    one: i64,
) -> Option<RepulsiveConfig> {
    match mode {
        EnsembleMode::Normal => None,
        EnsembleMode::Repulsive => Some(
            RepulsiveConfig {
                repulsive_size,
                repulsive_gamma_dist: match repulsive_gamma_dist {
                    Some(g) => g,
                    None => ((-(one / 2)) as i64, (-(one / 10)) as i64),
                },
                abs_llr_threshold: match abs_llr_threshold {
                    Some(t) => t,
                    None => (2 * one) as i64,
                },
                pulse_per_leg: match pulse_per_leg {
                    Some(p) => p,
                    None => 1,
                },
                start_leg: match start_leg {
                    Some(s) => s,
                    None => 0,
                },
            },
        ),
    }
}

/// How repulsive members are set up, if there are any.
pub fn repulsive_config(
    mode: EnsembleMode,
    repulsive_size: usize,
    repulsive_gamma_dist: Option<(i64, i64)>,
    abs_llr_threshold: Option<i64>,
    pulse_per_leg: Option<usize>,
    start_leg: Option<usize>,
    one: i64,
) -> (r: Option<RepulsiveConfig>)
    requires
        1 <= one <= i64::MAX / 2,
    ensures
        r == repulsion(
            mode,
            repulsive_size,
            repulsive_gamma_dist,
            abs_llr_threshold,
            pulse_per_leg,
            start_leg,
            one,
        ),
{
    match mode {
        EnsembleMode::Normal => None,
        EnsembleMode::Repulsive => {
            let start: RepulsiveConfig = RepulsiveConfig::with_unit(one);
            Some(
                RepulsiveConfig {
                    repulsive_size,
                    repulsive_gamma_dist: match repulsive_gamma_dist {
                        Some(g) => g,
                        None => start.repulsive_gamma_dist,
                    },
                    abs_llr_threshold: match abs_llr_threshold {
                        Some(t) => t,
                        None => start.abs_llr_threshold,
                    },
                    pulse_per_leg: match pulse_per_leg {
                        Some(p) => p,
                        None => start.pulse_per_leg,
                    },
                    start_leg: match start_leg {
                        Some(s) => s,
                        None => start.start_leg,
                    },
                },
            )
        },
    }
}

/// The modes of a search, each by its name.
#[derive(Clone, Copy, Debug)]
pub struct SearchModes<'a> {
    pub init_perturbation_mode: &'a str,
    pub selection_mode: &'a str,
    pub weighted_selection_mode: &'a str,
    pub init_strategy: &'a str,
    pub perturbation_method: &'a str,
    pub gamma_mode: &'a str,
    pub adaptive_memory_mode: &'a str,
    pub adaptive_perturbation_sign_mode: &'a str,
    pub adaptive_perturbation_target: &'a str,
    pub adaptive_perturbation_prior_base_mode: &'a str,
    pub adaptive_perturbation_variable_base_mode: &'a str,
    pub adaptive_perturbation_llr_threshold_mode: &'a str,
}

impl SearchModes<'_> {
    /// The parameters with these modes and the given threshold of carried marginals.
    pub open spec fn applied(
        self,
        config: SLGMBPDecoderConfig,
        carry: Option<i64>,
    ) -> SLGMBPDecoderConfig {
        SLGMBPDecoderConfig {
            init_perturbation_mode: init_perturbation_mode_of(self.init_perturbation_mode@),
            selection_mode: selection_mode_of(self.selection_mode@),
            weighted_selection_mode: weighted_selection_mode_of(self.weighted_selection_mode@),
            init_strategy: init_strategy_of(self.init_strategy@),
            perturbation_method: perturbation_method_of(self.perturbation_method@),
            gamma_mode: gamma_mode_of(self.gamma_mode@),
            adaptive_memory_mode: adaptive_memory_mode_of(self.adaptive_memory_mode@),
            adaptive_perturbation_sign_mode: adaptive_sign_mode_of(
                self.adaptive_perturbation_sign_mode@,
            ),
            adaptive_perturbation_target: adaptive_target_of(self.adaptive_perturbation_target@),
            adaptive_perturbation_prior_base_mode: adaptive_prior_base_mode_of(
                self.adaptive_perturbation_prior_base_mode@,
            ),
            adaptive_perturbation_variable_base_mode: adaptive_variable_base_mode_of(
                self.adaptive_perturbation_variable_base_mode@,
            ),
            adaptive_perturbation_llr_threshold_mode: adaptive_threshold_mode_of(
                self.adaptive_perturbation_llr_threshold_mode@,
            ),
            marginal_carry_llr_abs_threshold: carry,
            ..config
        }
    }
}

/// The parameters of a search, which start from `config`, with modes by their names. The
/// first share that is out of range is refused.
pub fn configure_search(
    config: SLGMBPDecoderConfig,
    modes: &SearchModes,
    positive_sign_prob: i64,
    carry_llr_abs_threshold: i64,
    one: i64,
) -> (r: Result<SLGMBPDecoderConfig, OptionError>)
    requires
        one >= 1,
    ensures
        r == (match checked_options(
            positive_sign_prob as int,
            config.marginal_carry_damping_factor as int,
            carry_llr_abs_threshold,
            one as int,
        ) {
            Ok(carry) => Ok::<SLGMBPDecoderConfig, OptionError>(modes.applied(config, carry)),
            Err(e) => Err(e),
        }),
{
    match search_options(
        positive_sign_prob,
        config.marginal_carry_damping_factor,
        carry_llr_abs_threshold,
        one,
    ) {
        Ok(carry) => Ok(
            SLGMBPDecoderConfig {
                init_perturbation_mode: init_perturbation_mode(modes.init_perturbation_mode),
                selection_mode: selection_mode(modes.selection_mode),
                weighted_selection_mode: weighted_selection_mode(modes.weighted_selection_mode),
                init_strategy: init_strategy(modes.init_strategy),
                perturbation_method: perturbation_method(modes.perturbation_method),
                gamma_mode: gamma_mode(modes.gamma_mode),
                adaptive_memory_mode: adaptive_memory_mode(modes.adaptive_memory_mode),
                adaptive_perturbation_sign_mode: adaptive_sign_mode(
                    modes.adaptive_perturbation_sign_mode,
                ),
                adaptive_perturbation_target: adaptive_target(modes.adaptive_perturbation_target),
                adaptive_perturbation_prior_base_mode: adaptive_prior_base_mode(
                    modes.adaptive_perturbation_prior_base_mode,
                ),
                adaptive_perturbation_variable_base_mode: adaptive_variable_base_mode(
                    modes.adaptive_perturbation_variable_base_mode,
                ),
                adaptive_perturbation_llr_threshold_mode: adaptive_threshold_mode(
                    modes.adaptive_perturbation_llr_threshold_mode,
                ),
                marginal_carry_llr_abs_threshold: carry,
                ..config
            },
        ),
        Err(e) => Err(e),
    }
}

} // verus!
