//! By which names options go, and what members of an ensemble are set up with.

use vstd::prelude::*;

use crate::ensemble_decoder::EnsembleMode;
use crate::ensemble_members::{member_priors, permutations_missing, MemberOptions, Permutations};
use crate::options::{
    adaptive_memory_mode_of, adaptive_prior_base_mode_of, adaptive_sign_mode_of,
    adaptive_target_of, adaptive_threshold_mode_of, adaptive_variable_base_mode_of,
    bias_apply_mode_of, bias_mode_of, checked_options, clamp_mode_of, ensemble_mode_of,
    gamma_mode_of, init_perturbation_mode_of, init_strategy_of, mix_mode_of, named,
    perturbation_method_of, perturbation_mode_of, perturbation_scale_of, prior_modify_method_of,
    repulsion, reweighting_mode_of, reweighting_selection_of, sampling_mode_of,
    selection_mode_of, selection_strategy_of, stopping_criterion_of, update_mode_of,
    weighted_selection_mode_of, OptionError, SearchModes,
};
use crate::relay::{RelayDecoderConfig, StoppingCriterion};
use crate::slg_mbp::config::SLGMBPDecoderConfig;

verus! {

/// `text` is `name`, where a capital letter of the text counts as the small one.
pub open spec fn spelt(text: Seq<char>, name: Seq<char>) -> bool {
    &&& text.len() == name.len()
    &&& forall|i: int|
        0 <= i < text.len() ==> (#[trigger] name[i]) as int == (if 'A' <= text[i] && text[i]
            <= 'Z' {
            text[i] as int + 'a' as int - 'A' as int
        } else {
            text[i] as int
        })
}

/// The name by which every option goes. Any other text leaves it at what it starts from.
pub proof fn law_option_names(text: Seq<char>)
    ensures
        init_perturbation_mode_of(text) is MultiplicativeUniform <==> {
            ||| spelt(text, "multiplicative_uniform"@)
            ||| spelt(text, "uniform"@)
            ||| spelt(text, "option_b"@)
        },
        selection_mode_of(text) is Tournament <==> {
            ||| spelt(text, "tournament"@)
            ||| spelt(text, "option_b"@)
        },
        weighted_selection_mode_of(text) is Rank <==> spelt(text, "rank"@),
        init_strategy_of(text) is MemBp <==> {
            ||| spelt(text, "mem-bp"@)
            ||| spelt(text, "mem_bp"@)
            ||| spelt(text, "membp"@)
        },
        perturbation_method_of(text) is Resample <==> spelt(text, "resample"@),
        gamma_mode_of(text) is IntervalRandomPerVariable <==> {
            ||| spelt(text, "interval_random"@)
            ||| spelt(text, "interval_random_per_generation"@)
            ||| spelt(text, "interval_random_per_variable"@)
            ||| spelt(text, "random_interval"@)
        },
        adaptive_memory_mode_of(text) is DirectInterval <==> {
            ||| spelt(text, "direct_interval"@)
            ||| spelt(text, "uniform_interval"@)
            ||| spelt(text, "raw_interval"@)
        },
        adaptive_sign_mode_of(text) is AlwaysNegative <==> {
            ||| spelt(text, "always_negative"@)
            ||| spelt(text, "negative"@)
            ||| spelt(text, "all_negative"@)
        },
        adaptive_target_of(text) is Posterior <==> {
            ||| spelt(text, "posterior"@)
            ||| spelt(text, "marginal"@)
            ||| spelt(text, "posterior_marginal"@)
        },
        adaptive_target_of(text) is Both <==> {
            &&& !spelt(text, "posterior"@)
            &&& !spelt(text, "marginal"@)
            &&& !spelt(text, "posterior_marginal"@)
            &&& spelt(text, "both"@)
        },
        adaptive_target_of(text) is Prior <==> {
            &&& !spelt(text, "posterior"@)
            &&& !spelt(text, "marginal"@)
            &&& !spelt(text, "posterior_marginal"@)
            &&& !spelt(text, "both"@)
        },
        adaptive_prior_base_mode_of(text) is PreviousBiased <==> {
            ||| spelt(text, "previous_biased"@)
            ||| spelt(text, "previous"@)
            ||| spelt(text, "carry"@)
            ||| spelt(text, "cumulative"@)
        },
        adaptive_variable_base_mode_of(text) is FirstLegPosteriorFixed <==> {
            ||| spelt(text, "first_leg_posterior_fixed"@)
            ||| spelt(text, "first_leg_fixed"@)
            ||| spelt(text, "first_leg"@)
            ||| spelt(text, "fixed_first_leg"@)
        },
        adaptive_threshold_mode_of(text) is GenerationLog10Iter <==> {
            ||| spelt(text, "generation_log10_iter"@)
            ||| spelt(text, "generation_log10"@)
            ||| spelt(text, "log10_iter"@)
            ||| spelt(text, "dynamic"@)
        },
        update_mode_of(text) is PerLeg <==> {
            ||| spelt(text, "per-leg"@)
            ||| spelt(text, "per_leg"@)
            ||| spelt(text, "leg"@)
        },
        perturbation_mode_of(text) is Gaussian <==> {
            ||| spelt(text, "gaussian"@)
            ||| spelt(text, "normal"@)
        },
        clamp_mode_of(text) is AbsThresholdClamp <==> {
            ||| spelt(text, "abs_threshold_clamp"@)
            ||| spelt(text, "threshold"@)
            ||| spelt(text, "clamp"@)
        },
        sampling_mode_of(text) is Fixed <==> spelt(text, "fixed"@),
        bias_mode_of(text) is IntervalRandom <==> {
            ||| spelt(text, "interval_random"@)
            ||| spelt(text, "random"@)
        },
        bias_apply_mode_of(text) is Filter <==> spelt(text, "filter"@),
        mix_mode_of(text) is WeightedFast <==> {
            ||| spelt(text, "weighted_fast"@)
            ||| spelt(text, "weighted-fast"@)
        },
        reweighting_mode_of(text) is Partial <==> spelt(text, "partial"@),
        reweighting_selection_of(text) is Prior <==> {
            ||| spelt(text, "prior"@)
            ||| spelt(text, "prior_reweighting"@)
        },
        selection_strategy_of(text) is MajorityVote <==> {
            ||| spelt(text, "majority-vote"@)
            ||| spelt(text, "majorityvote"@)
        },
        ensemble_mode_of(text) is Repulsive <==> spelt(text, "repulsive"@),
        prior_modify_method_of(text) is Ratio <==> spelt(text, "ratio"@),
        prior_modify_method_of(text) is LogNormal <==> {
            &&& !(spelt(text, "ratio"@))
            &&& {
                ||| spelt(text, "log_normal"@)
                ||| spelt(text, "lognormal"@)
                ||| spelt(text, "gaussian_log"@)
            }
        },
        prior_modify_method_of(text) is LinearSampling <==> {
            &&& !spelt(text, "ratio"@)
            &&& !spelt(text, "log_normal"@)
            &&& !spelt(text, "lognormal"@)
            &&& !spelt(text, "gaussian_log"@)
        },
        perturbation_scale_of(text) is Exponential <==> spelt(text, "exponential"@),
{
    assert forall|name: Seq<char>| #[trigger] named(text, name) == spelt(text, name) by {}
}

/// When a relay decoder stops goes by names in small letters; any other text stops it after
/// the first leg that converged.
pub proof fn law_stopping_names(text: Seq<char>, stop_nconv: usize)
    ensures
        text == "all"@ && text != "nconv"@ && text != "pre_iter"@ ==> stopping_criterion_of(
            text,
            stop_nconv,
        ) is All,
        text == "pre_iter"@ ==> stopping_criterion_of(text, stop_nconv) is PreIter,
        text == "nconv"@ && text != "pre_iter"@ ==> stopping_criterion_of(text, stop_nconv) == (
        StoppingCriterion::NConv { stop_after: stop_nconv }),
        text != "all"@ && text != "nconv"@ && text != "pre_iter"@ ==> stopping_criterion_of(
            text,
            stop_nconv,
        ) == (StoppingCriterion::NConv { stop_after: 1 }),
{
}

/// Shares of a unit must lie between zero and one; the first that does not is refused. A
/// threshold is given or, by minus one, absent.
pub proof fn law_checked_options(sign: int, damping: int, threshold: i64, one: int)
    requires
        one >= 1,
    ensures
        ({
            let r = checked_options(sign, damping, threshold, one);
            let sign_fits = 0 <= sign && sign <= one;
            let damping_fits = 0 <= damping && damping <= one;
            &&& !sign_fits <==> r == Err::<Option<i64>, OptionError>(
                OptionError::PositiveSignProbability,
            )
            &&& sign_fits && !damping_fits <==> r == Err::<Option<i64>, OptionError>(
                OptionError::CarryDampingFactor,
            )
            &&& sign_fits && damping_fits && threshold < 0 && threshold != -one <==> r == Err::<
                Option<i64>,
                OptionError,
            >(OptionError::CarryThreshold)
            &&& sign_fits && damping_fits && threshold >= 0 ==> r == Ok::<Option<i64>, OptionError>(
                Some(threshold),
            )
            &&& sign_fits && damping_fits && threshold == -one ==> r == Ok::<
                Option<i64>,
                OptionError,
            >(None)
        }),
{
}

/// Repulsion is set up only for an ensemble in repulsive mode, by what is given.
pub proof fn law_repulsion(
    mode: EnsembleMode,
    size: usize,
    dist: Option<(i64, i64)>,
    threshold: Option<i64>,
    pulse: Option<usize>,
    start: Option<usize>,
    one: i64,
)
    requires
        1 <= one <= i64::MAX / 2,
    ensures
        ({
            let r = repulsion(mode, size, dist, threshold, pulse, start, one);
            &&& r is Some <==> mode is Repulsive
            &&& r matches Some(c) ==> {
                &&& c.repulsive_size == size
                &&& dist matches Some(d) ==> c.repulsive_gamma_dist == d
                &&& threshold matches Some(t) ==> c.abs_llr_threshold == t
                &&& threshold is None ==> c.abs_llr_threshold == 2 * one
                &&& pulse matches Some(p) ==> c.pulse_per_leg == p
                &&& pulse is None ==> c.pulse_per_leg == 1
                &&& start matches Some(s) ==> c.start_leg == s
                &&& start is None ==> c.start_leg == 0
            }
        }),
{
}

/// The first members of an ensemble repel, as many as are asked for; all others are plain. In
/// all else members agree.
pub proof fn law_member_relay(options: MemberOptions, i: nat, r: RelayDecoderConfig)
    requires
        options.relay_of(i, r),
    ensures
        r.pre_iter == options.relay.pre_iter,
        r.num_sets == options.relay.num_sets,
        r.set_max_iter == options.relay.set_max_iter,
        r.stopping_criterion == options.relay.stopping_criterion,
        i < options.repulsive_size ==> {
            &&& r.repulsive == options.repulsive
            &&& r.abs_llr_threshold == options.abs_llr_threshold
            &&& r.pulse_per_leg == options.pulse_per_leg
            &&& r.start_leg == options.start_leg
        },
        i >= options.repulsive_size ==> {
            &&& r.repulsive == options.relay.repulsive
            &&& r.abs_llr_threshold == options.relay.abs_llr_threshold
            &&& r.pulse_per_leg == options.relay.pulse_per_leg
            &&& r.start_leg == options.relay.start_leg
        },
{
}

/// The first member has the priors of the code, every other the perturbed ones made for it.
pub proof fn law_member_priors(priors: Seq<i64>, perturbed: Seq<Vec<i64>>, i: int)
    requires
        0 <= i <= perturbed.len(),
    ensures
        member_priors(priors, perturbed, 0) == priors,
        i > 0 ==> member_priors(priors, perturbed, i) == perturbed[i - 1]@,
{
}

/// Permutations suffice if there is one of columns and one of rows for every member. Otherwise
/// the first member that lacks one decides what is missing, its columns before its rows.
pub proof fn law_permutations(p: Permutations, n: nat)
    ensures
        permutations_missing(p, n) is None <==> p.columns.len() >= n && p.rows.len() >= n,
        permutations_missing(p, n) == Some(OptionError::ColumnPermutations) <==> exists|i: int|
            {
                &&& 0 <= i < n
                &&& p.columns.len() <= i
                &&& #[trigger] has_both(p, i)
            },
{
    let k = p.columns.len() as int;
    if p.columns.len() < n && p.columns.len() <= p.rows.len() {
        assert(has_both(p, k));
    }
}

/// All members before `i` have a permutation of columns and one of rows.
pub open spec fn has_both(p: Permutations, i: int) -> bool {
    i <= p.columns.len() && i <= p.rows.len()
}

/// The modes of a search go by their names, and nothing else of its parameters changes but the
/// threshold of what is carried.
pub proof fn law_modes_applied(modes: SearchModes, config: SLGMBPDecoderConfig, carry: Option<i64>)
    ensures
        ({
            let r = modes.applied(config, carry);
            &&& r.selection_mode == selection_mode_of(modes.selection_mode@)
            &&& r.init_strategy == init_strategy_of(modes.init_strategy@)
            &&& r.gamma_mode == gamma_mode_of(modes.gamma_mode@)
            &&& r.perturbation_method == perturbation_method_of(modes.perturbation_method@)
            &&& r.adaptive_perturbation_target == adaptive_target_of(
                modes.adaptive_perturbation_target@,
            )
            &&& r.marginal_carry_llr_abs_threshold == carry
            &&& r.ensemble_size == config.ensemble_size
            &&& r.g_max == config.g_max
            &&& r.t_ms == config.t_ms
            &&& r.t_mem == config.t_mem
            &&& r.eta == config.eta
            &&& r.reset_marginal == config.reset_marginal
            &&& r.elite_count == config.elite_count
            &&& r.n_solutions == config.n_solutions
        }),
{
}

} // verus!
