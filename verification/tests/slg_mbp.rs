use relay_bp::matrix::SparseBitMatrix;
use relay_bp::min_sum::MinSumDecoderConfig;
use relay_bp::slg_mbp::adapt::{AdaptiveDraws, SLGMBPDecoder};
use relay_bp::slg_mbp::config::{
    AdaptivePerturbationBiasMode, AdaptivePerturbationFactorMode,
    AdaptivePerturbationPriorBaseMode, AdaptivePerturbationSignMode, AdaptivePerturbationTarget,
    AdaptivePerturbationThresholdMode, AdaptivePerturbationVariableBaseMode, SLGMBPDecoderConfig,
};
use relay_bp::slg_mbp::evaluate::{
    fitness_from_final_marginal, fitness_from_ms_cumsum, low_llr_count, residual_weight,
};
use relay_bp::slg_mbp::init_population::{apply_perturbation_state, PerturbationState};

const ONE: i64 = 1_000_000;

fn fixed(x: f64) -> i64 {
    (x * ONE as f64).round() as i64
}

fn ratios(values: &[f64]) -> Vec<i64> {
    values.iter().map(|x| fixed(*x)).collect()
}

fn make_decoder(config: SLGMBPDecoderConfig) -> SLGMBPDecoder {
    let check_matrix = SparseBitMatrix::from_dense(&vec![vec![1, 0], vec![0, 1]], 2);
    let min_sum_config = MinSumDecoderConfig {
        log_prior_ratios: vec![fixed((0.8f64 / 0.2).ln()), fixed((0.7f64 / 0.3).ln())],
        max_iter: 4,
        data_scale_value: Some(ONE),
        ..Default::default()
    };
    SLGMBPDecoder::new(check_matrix, min_sum_config, config)
}

fn adaptive_config() -> SLGMBPDecoderConfig {
    SLGMBPDecoderConfig {
        adaptive_perturbation: true,
        adaptive_perturbation_llr_threshold: fixed(0.25),
        adaptive_perturbation_factor: fixed(3.0),
        adaptive_perturbation_log_factor: fixed(3.0f64.ln()),
        adaptive_perturbation_sign_mode: AdaptivePerturbationSignMode::AlwaysNegative,
        ..SLGMBPDecoderConfig::with_unit(ONE)
    }
}

fn no_draws() -> AdaptiveDraws {
    AdaptiveDraws { factors: vec![], log_factors: vec![], positive: vec![] }
}

fn signs(positive: bool) -> AdaptiveDraws {
    AdaptiveDraws { factors: vec![], log_factors: vec![], positive: vec![positive; 3] }
}

#[test]
fn counts_low_absolute_llrs_inclusively() {
    // The unit is fine enough to tell 0.5000001 from 0.5.
    let posterior = vec![-5_000_000, 0, 5_000_001, 12_000_000];
    assert_eq!(low_llr_count(&posterior, 5_000_000), 2);
}

#[test]
fn final_marginal_fitness_adds_low_llr_term() {
    let posterior = ratios(&[0.1, -0.4, 2.0]);
    let score = fitness_from_final_marginal(
        1,
        &posterior,
        fixed(2.0),
        fixed(1.0),
        fixed(3.0),
        fixed(0.5),
        ONE,
    );
    assert_eq!(score, fixed(6.5) as i128);
}

#[test]
fn ms_cumsum_fitness_adds_low_llr_term() {
    let posterior = ratios(&[0.1, -0.4, 2.0]);
    let score = fitness_from_ms_cumsum(
        1,
        fixed(5.0) as i128,
        &posterior,
        fixed(2.0),
        fixed(1.0),
        fixed(-3.0),
        fixed(0.5),
        ONE,
    );
    assert_eq!(score, fixed(-3.0) as i128);
}

#[test]
fn additive_state_applies_elementwise_noise() {
    let prior = ratios(&[1.0, -2.0, 0.5]);
    let noise = ratios(&[0.25, -0.5, 0.75]);
    let perturbed =
        apply_perturbation_state(&prior, &PerturbationState::AdditiveGaussian(noise), ONE);
    assert_eq!(perturbed, ratios(&[1.25, -2.5, 1.25]));
}

#[test]
fn multiplicative_state_applies_elementwise_scale() {
    let prior = ratios(&[1.0, -2.0, 0.5]);
    let scale = ratios(&[2.0, 0.5, -1.0]);
    let perturbed =
        apply_perturbation_state(&prior, &PerturbationState::MultiplicativeUniform(scale), ONE);
    assert_eq!(perturbed, ratios(&[2.0, -1.0, -0.5]));
}

#[test]
fn adaptive_prior_rebiases_only_low_confidence_variables() {
    let decoder = make_decoder(adaptive_config());
    let base_prior = ratios(&[1.0, -2.0, 0.75]);
    let posterior = ratios(&[0.1, 0.3, -0.249]);

    let rebased = decoder.build_adaptive_prior(
        &base_prior,
        None,
        None,
        &posterior,
        fixed(0.25),
        &no_draws(),
    );

    let add_val = fixed(3.0f64.ln());
    assert_eq!(rebased, vec![fixed(1.0) - add_val, fixed(-2.0), fixed(0.75) - add_val]);
}

#[test]
fn adaptive_prior_random_sign_mode_respects_positive_probability_extremes() {
    let base_prior = ratios(&[1.0, -2.0, 0.75]);
    let posterior = ratios(&[0.1, 0.3, -0.249]);
    let add_val = fixed(3.0f64.ln());
    let decoder = make_decoder(SLGMBPDecoderConfig {
        adaptive_perturbation_sign_mode: AdaptivePerturbationSignMode::Random,
        ..adaptive_config()
    });

    // A chance of one draws only positive signs, a chance of zero only negative ones.
    let positive_rebased = decoder.build_adaptive_prior(
        &base_prior,
        None,
        None,
        &posterior,
        fixed(0.25),
        &signs(true),
    );
    assert_eq!(positive_rebased, vec![fixed(1.0) + add_val, fixed(-2.0), fixed(0.75) + add_val]);
    let negative_rebased = decoder.build_adaptive_prior(
        &base_prior,
        None,
        None,
        &posterior,
        fixed(0.25),
        &signs(false),
    );
    assert_eq!(negative_rebased, vec![fixed(1.0) - add_val, fixed(-2.0), fixed(0.75) - add_val]);
}

#[test]
fn adaptive_prior_scale_mode_scales_low_confidence_llr() {
    let decoder = make_decoder(SLGMBPDecoderConfig {
        adaptive_perturbation_factor: fixed(0.2),
        adaptive_perturbation_factor_mode: AdaptivePerturbationFactorMode::Fixed,
        adaptive_perturbation_bias_mode: AdaptivePerturbationBiasMode::Scale,
        ..adaptive_config()
    });
    let base_prior = ratios(&[1.0, -2.0, 0.75]);
    let posterior = ratios(&[0.1, 0.3, -0.249]);
    let rebased = decoder.build_adaptive_prior(
        &base_prior,
        None,
        None,
        &posterior,
        fixed(0.25),
        &no_draws(),
    );
    assert_eq!(rebased, ratios(&[0.2, -2.0, 0.15]));
}

#[test]
fn adaptive_prior_uniform_factor_mode_uses_interval_for_scale() {
    let decoder = make_decoder(SLGMBPDecoderConfig {
        adaptive_perturbation_factor_mode: AdaptivePerturbationFactorMode::UniformPerVariable,
        adaptive_perturbation_bias_mode: AdaptivePerturbationBiasMode::Scale,
        ..adaptive_config()
    });
    let base_prior = ratios(&[1.0, -2.0, 0.75]);
    let posterior = ratios(&[0.1, 0.3, -0.249]);
    // Every factor of the interval from 0.5 to 0.5 is 0.5.
    let draws = AdaptiveDraws {
        factors: ratios(&[0.5, 0.5, 0.5]),
        log_factors: ratios(&[0.5f64.ln(), 0.5f64.ln(), 0.5f64.ln()]),
        positive: vec![],
    };
    let rebased =
        decoder.build_adaptive_prior(&base_prior, None, None, &posterior, fixed(0.25), &draws);
    assert_eq!(rebased, ratios(&[0.5, -2.0, 0.375]));
}

#[test]
fn adaptive_initial_marginal_supports_posterior_and_both_targets() {
    let base_prior = ratios(&[1.0, -2.0, 0.75]);
    let posterior = ratios(&[0.1, 0.3, -0.249]);
    let add_val = fixed(3.0f64.ln());

    let posterior_decoder = make_decoder(SLGMBPDecoderConfig {
        adaptive_perturbation_target: AdaptivePerturbationTarget::Posterior,
        marginal_carry_damping_factor: ONE,
        ..adaptive_config()
    });
    let posterior_initial = posterior_decoder.build_adaptive_initial_marginal(
        &base_prior,
        &posterior,
        None,
        fixed(0.25),
        false,
        &no_draws(),
    );
    assert_eq!(posterior_initial, vec![fixed(0.1) - add_val, fixed(0.3), fixed(-0.249) - add_val]);

    let both_decoder = make_decoder(SLGMBPDecoderConfig {
        adaptive_perturbation_target: AdaptivePerturbationTarget::Both,
        marginal_carry_damping_factor: ONE,
        ..adaptive_config()
    });
    let both_prior = both_decoder.build_adaptive_prior(
        &base_prior,
        None,
        None,
        &posterior,
        fixed(0.25),
        &no_draws(),
    );
    let both_initial = both_decoder.build_adaptive_initial_marginal(
        &base_prior,
        &posterior,
        None,
        fixed(0.25),
        false,
        &no_draws(),
    );
    assert_eq!(both_prior, vec![fixed(1.0) - add_val, fixed(-2.0), fixed(0.75) - add_val]);
    assert_eq!(both_initial, vec![fixed(0.1) - add_val, fixed(0.3), fixed(-0.249) - add_val]);
}

#[test]
fn adaptive_memory_strength_flips_low_llr_sign_from_init_gamma() {
    let decoder = make_decoder(SLGMBPDecoderConfig {
        init_gamma: fixed(0.125),
        adaptive_perturbation_target: AdaptivePerturbationTarget::MemoryStrength,
        adaptive_perturbation_sign_mode: AdaptivePerturbationSignMode::Random,
        ..adaptive_config()
    });
    let posterior = ratios(&[0.1, 0.3, -0.2]);
    let gamma = decoder
        .build_adaptive_memory_strength(&posterior, None, fixed(0.25), &vec![false; 3])
        .expect("memory_strength should produce gamma vector");
    assert_eq!(gamma, ratios(&[-0.125, 0.125, -0.125]));
}

#[test]
fn adaptive_memory_strength_resets_to_init_gamma_on_threshold_exit_with_fixed_mask() {
    let decoder = make_decoder(SLGMBPDecoderConfig {
        init_gamma: fixed(0.125),
        adaptive_perturbation_target: AdaptivePerturbationTarget::MemoryStrength,
        adaptive_perturbation_reset_on_threshold_exit: true,
        ..adaptive_config()
    });
    let posterior = ratios(&[0.1, 0.6, -0.2]);
    let fixed_mask = vec![true, true, true];
    let gamma = decoder
        .build_adaptive_memory_strength(&posterior, Some(&fixed_mask), fixed(0.25), &vec![])
        .expect("memory_strength should produce gamma vector");
    assert_eq!(gamma, ratios(&[-0.125, 0.125, -0.125]));
}

#[test]
fn dynamic_adaptive_threshold_starts_at_min_and_clips_to_max() {
    // The threshold grows by 0.15 times the decimal logarithm of the iterations.
    let increments: Vec<i64> = (0..=100)
        .map(|n: usize| if n == 0 { 0 } else { fixed(0.15 * (n as f64).log10()) })
        .collect();
    let decoder = make_decoder(SLGMBPDecoderConfig {
        adaptive_perturbation_llr_threshold_mode:
            AdaptivePerturbationThresholdMode::GenerationLog10Iter,
        adaptive_perturbation_llr_threshold_min: fixed(0.25),
        adaptive_perturbation_llr_threshold_max: fixed(0.5),
        adaptive_perturbation_llr_threshold_increments: increments,
        ..SLGMBPDecoderConfig::with_unit(ONE)
    });

    let initial = decoder.initial_adaptive_perturbation_llr_threshold();
    let after_ten = decoder.next_adaptive_perturbation_llr_threshold(initial, 10);
    let after_hundred = decoder.next_adaptive_perturbation_llr_threshold(after_ten, 100);

    assert_eq!(initial, fixed(0.25));
    assert_eq!(after_ten, fixed(0.4));
    assert_eq!(after_hundred, fixed(0.5));
}

#[test]
fn reset_marginal_uses_phase_prior_instead_of_carried_posterior() {
    let decoder = make_decoder(SLGMBPDecoderConfig {
        eta: fixed(0.5),
        ..SLGMBPDecoderConfig::with_unit(ONE)
    });
    let phase_prior = ratios(&[1.5, -0.25]);
    let child_posterior = ratios(&[10.0, -8.0]);

    let reset = decoder.initial_marginal(&phase_prior, &child_posterior, true);
    let carried = decoder.initial_marginal(&phase_prior, &child_posterior, false);

    assert_eq!(reset, phase_prior);
    assert_eq!(carried, ratios(&[5.0, -4.0]));
}

#[test]
fn adaptive_prior_can_carry_previous_biased_prior() {
    let decoder = make_decoder(SLGMBPDecoderConfig {
        adaptive_perturbation_prior_base_mode: AdaptivePerturbationPriorBaseMode::PreviousBiased,
        ..adaptive_config()
    });
    let base_prior = ratios(&[1.0, -2.0, 0.75]);
    let previous_biased = ratios(&[0.5, -2.5, 0.1]);
    let posterior = ratios(&[0.1, 0.6, -0.2]);
    let add_val = fixed(3.0f64.ln());
    let rebased = decoder.build_adaptive_prior(
        &base_prior,
        Some(&previous_biased),
        None,
        &posterior,
        fixed(0.25),
        &no_draws(),
    );
    assert_eq!(rebased, vec![fixed(0.5) - add_val, fixed(-2.5), fixed(0.1) - add_val]);
}

#[test]
fn adaptive_prior_can_reset_bias_when_threshold_is_exited() {
    let decoder = make_decoder(SLGMBPDecoderConfig {
        adaptive_perturbation_prior_base_mode: AdaptivePerturbationPriorBaseMode::PreviousBiased,
        adaptive_perturbation_reset_on_threshold_exit: true,
        ..adaptive_config()
    });
    let base_prior = ratios(&[1.0, -2.0, 0.75]);
    let previous_biased = ratios(&[0.5, -2.5, 0.1]);
    let posterior = ratios(&[0.1, 0.6, -0.2]);
    let add_val = fixed(3.0f64.ln());
    let rebased = decoder.build_adaptive_prior(
        &base_prior,
        Some(&previous_biased),
        None,
        &posterior,
        fixed(0.25),
        &no_draws(),
    );
    assert_eq!(rebased, vec![fixed(0.5) - add_val, fixed(-2.0), fixed(0.1) - add_val]);
}

#[test]
fn adaptive_prior_first_leg_fixed_mode_uses_fixed_mask_not_current_posterior() {
    let decoder = make_decoder(SLGMBPDecoderConfig {
        adaptive_perturbation_variable_base_mode:
            AdaptivePerturbationVariableBaseMode::FirstLegPosteriorFixed,
        ..adaptive_config()
    });
    let base_prior = ratios(&[1.0, -2.0, 0.75]);
    // Only variables 0 and 2 are selected by the first-leg fixed mask.
    let fixed_mask = vec![true, false, true];
    // The current posterior would bias only variable 1.
    let current_posterior = ratios(&[0.6, 0.1, 0.7]);
    let add_val = fixed(3.0f64.ln());
    let rebased = decoder.build_adaptive_prior(
        &base_prior,
        None,
        Some(&fixed_mask),
        &current_posterior,
        fixed(0.25),
        &no_draws(),
    );
    assert_eq!(rebased, vec![fixed(1.0) - add_val, fixed(-2.0), fixed(0.75) - add_val]);
}

#[test]
fn adaptive_prior_fixed_mask_resamples_sign_each_leg() {
    let decoder = make_decoder(SLGMBPDecoderConfig {
        adaptive_perturbation_sign_mode: AdaptivePerturbationSignMode::Random,
        adaptive_perturbation_variable_base_mode:
            AdaptivePerturbationVariableBaseMode::FirstLegPosteriorFixed,
        ..adaptive_config()
    });
    let base_prior = ratios(&[1.0, -2.0, 0.75]);
    let fixed_mask = vec![true, false, true];
    let current_posterior = ratios(&[0.6, 0.1, 0.7]);
    let add_val = fixed(3.0f64.ln());

    let mut saw_positive = false;
    let mut saw_negative = false;
    for leg in 0..256 {
        let draws = AdaptiveDraws {
            factors: vec![],
            log_factors: vec![],
            positive: (0..3).map(|v| rand::random::<bool>() ^ (leg % 2 == v % 2)).collect(),
        };
        let rebased = decoder.build_adaptive_prior(
            &base_prior,
            None,
            Some(&fixed_mask),
            &current_posterior,
            fixed(0.25),
            &draws,
        );
        let diff = rebased[0] - base_prior[0];
        if diff == add_val {
            saw_positive = true;
        }
        if diff == -add_val {
            saw_negative = true;
        }
        if saw_positive && saw_negative {
            break;
        }
    }
    assert!(saw_positive && saw_negative);
}

#[test]
fn residuals_are_counted() {
    assert_eq!(residual_weight(&vec![1, 0, 1], &vec![1, 1, 0]), 2);
    assert_eq!(residual_weight(&vec![1, 0], &vec![1, 0]), 0);
}
