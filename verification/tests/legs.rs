use rand::SeedableRng;
use relay_bp::adaptive_relay::{
    AdaptiveRelayDecoder, AdaptiveRelayDecoderConfig, AdaptiveRelayDraws, AdaptiveRelayTrace,
    AdaptiveRelayUpdateMode, PosteriorMarginalClampMode,
};
use relay_bp::decoder::{BPExtraResult, Decoder};
use relay_bp::disordered_bp::{
    mean_of, BiasApplyMode, DisorderedBPDecoder, DisorderedBPDecoderConfig, DisorderedDraws,
    SamplingMode,
};
use relay_bp::draws::{draw_numbers, draw_values};
use relay_bp::dual_relay::{
    median_of, DualRelayDecoder, DualRelayDecoderConfig, DualRelayDraws, DualRelayMixMode,
};
use relay_bp::logistic::{build_logistic_table, logistic_at};
use relay_bp::lrbp::langevin::{clear_history, LangevinDraws};
use relay_bp::lrbp::legs::{LRBPDecoder, LRBPDecoderConfig};
use relay_bp::matrix::SparseBitMatrix;
use relay_bp::min_sum::MinSumDecoderConfig;
use relay_bp::rejection_decoder::{
    apply_reweighting, RejectionConfig, RejectionDecoder, RejectionExtraResult, ReweightingMode,
    ReweightingSelection, StageIterations,
};
use relay_bp::relay::{RelayDecoderConfig, StoppingCriterion};

const ONE: i64 = 1_000;

fn repetition_code() -> SparseBitMatrix {
    SparseBitMatrix::from_dense(&vec![vec![1, 1, 0], vec![0, 1, 1]], 3)
}

fn min_sum(priors: Vec<i64>) -> MinSumDecoderConfig {
    MinSumDecoderConfig {
        log_prior_ratios: priors,
        max_iter: 20,
        gamma0: Some(125),
        data_scale_value: Some(ONE),
        ..Default::default()
    }
}

fn dual(config: DualRelayDecoderConfig) -> DualRelayDecoder {
    DualRelayDecoder::new(repetition_code(), min_sum(vec![4000; 3]), config)
}

#[test]
fn a_slow_and_a_fast_decoder_are_mixed() {
    let average = dual(DualRelayDecoderConfig::with_unit(ONE));
    let (mixed, disagreed) = average.mix_posteriors(&vec![100, -300, 7], &vec![300, 100, 8]);
    assert_eq!(mixed, vec![200, -100, 7]);
    assert!(!disagreed);
    let weighted = dual(DualRelayDecoderConfig {
        mix_mode: DualRelayMixMode::WeightedFast,
        delta: 2 * ONE,
        ..DualRelayDecoderConfig::with_unit(ONE)
    });
    let (mixed, disagreed) = weighted.mix_posteriors(&vec![100, -300, 7], &vec![300, 100, 8]);
    assert_eq!(mixed, vec![200, -100, 7]);
    assert!(disagreed);
}

#[test]
fn a_dual_relay_explains_the_syndrome() {
    let mut decoder = dual(DualRelayDecoderConfig {
        pre_iter: 10,
        maximum_leg: 3,
        iteration_per_leg: 10,
        ..DualRelayDecoderConfig::with_unit(ONE)
    });
    let draws = vec![
        DualRelayDraws {
            gammas_slow: vec![100; 3],
            gammas_fast: vec![-100; 3],
            ensemble_gammas: vec![],
        };
        2
    ];
    let result = decoder.decode_detailed(&vec![1, 1], &draws);
    assert!(result.success);
    assert_eq!(result.decoding, vec![0, 1, 0]);
    match result.extra {
        BPExtraResult::DualRelayTrace(t) => {
            assert_eq!(t.unique_solution_count, 1);
            assert_eq!(t.legs.leg_success, vec![true]);
            assert_eq!(t.legs.leg_iterations.iter().sum::<usize>(), result.iterations);
        }
        _ => panic!("the legs are recorded"),
    }
}

#[test]
fn an_ensemble_of_strengths_takes_the_median() {
    assert_eq!(median_of(&vec![5, 1, 9]), 5);
    assert_eq!(median_of(&vec![5, 1, 9, 8]), 6);
    assert_eq!(median_of(&vec![-5, -4]), -4);
    let mut decoder = dual(DualRelayDecoderConfig {
        pre_iter: 10,
        maximum_leg: 2,
        iteration_per_leg: 3,
        ensemble_mode: true,
        ensemble_size: 3,
        num_pre_iteration_instance: 2,
        initial_gamma: vec![0, 200],
        ..DualRelayDecoderConfig::with_unit(ONE)
    });
    let draws = vec![DualRelayDraws {
        gammas_slow: vec![],
        gammas_fast: vec![],
        ensemble_gammas: vec![vec![0, 100, -100]; 3],
    }];
    let result = decoder.decode_detailed(&vec![1, 0], &draws);
    assert!(result.success);
    assert_eq!(result.decoding, vec![1, 0, 0]);
}

fn disordered() -> DisorderedBPDecoder {
    let config = DisorderedBPDecoderConfig {
        t_0: 10,
        maximum_leg: 3,
        iteration_per_leg: 10,
        alpha_mode: SamplingMode::Fixed,
        gamma_mode: SamplingMode::Fixed,
        bias_mode: SamplingMode::Fixed,
        bias_fixed: 300,
        bias_apply_mode: BiasApplyMode::Filter,
        ..DisorderedBPDecoderConfig::with_unit(ONE)
    };
    DisorderedBPDecoder::new(repetition_code(), min_sum(vec![4000; 3]), config)
}

#[test]
fn biases_move_marked_posteriors() {
    let mut decoder = disordered();
    decoder.bp_decoder.initialize_decoder();
    decoder.apply_bias_to_posterior(&vec![-5000, 10, 10], &vec![true, true, false]);
    assert_eq!(*decoder.bp_decoder.posterior_ratios(), vec![-1000, 4010, 4000]);
    assert_eq!(*decoder.bp_decoder.current_decoding(), vec![1, 0, 0]);
    assert_eq!(mean_of(&vec![1, 2, 6]), 3);
    assert_eq!(mean_of(&vec![]), 0);
}

#[test]
fn a_disordered_decoder_stops_when_explained() {
    let mut decoder = disordered();
    let draws = vec![
        DisorderedDraws { alphas: vec![], gammas: vec![], biases: vec![], flips: vec![false; 3] };
        2
    ];
    let result = decoder.decode_detailed(&vec![0, 1], &draws);
    assert!(result.success);
    assert_eq!(result.decoding, vec![0, 0, 1]);
    match result.extra {
        BPExtraResult::DisorderedBPTrace(legs) => {
            assert_eq!(legs.len(), 1);
            assert!(legs[0].success);
            assert_eq!(legs[0].alpha_mean, 625);
            assert_eq!(legs[0].gamma_mean, 125);
            assert_eq!(legs[0].bias_applied_count, 0);
        }
        _ => panic!("the legs are recorded"),
    }
    // No error has this syndrome: all legs are run, and the bias is tried in two of them.
    let matrix = SparseBitMatrix::from_dense(&vec![vec![1, 1], vec![1, 1]], 2);
    let mut stuck = DisorderedBPDecoder::new(matrix, min_sum(vec![500; 2]), decoder.config);
    let draws = vec![
        DisorderedDraws {
            alphas: vec![],
            gammas: vec![],
            biases: vec![],
            flips: vec![true, false],
        };
        2
    ];
    let result = stuck.decode_detailed(&vec![1, 0], &draws);
    assert!(!result.success);
    assert_eq!(result.iterations, 30);
    match result.extra {
        BPExtraResult::DisorderedBPTrace(legs) => {
            assert_eq!(legs.len(), 3);
            // The mean is that of the magnitudes.
            assert_eq!(legs[1].bias_mean, 300);
            assert_eq!(legs[0].bias_mean, 0);
        }
        _ => panic!("the legs are recorded"),
    }
    let template = stuck.config.min_sum_template_from_priors(vec![1, 2], Some(ONE));
    assert_eq!(template.log_prior_ratios, vec![1, 2]);
}

fn adaptive(matrix: SparseBitMatrix, priors: Vec<i64>, clamp: bool) -> AdaptiveRelayDecoder {
    let config = AdaptiveRelayDecoderConfig {
        initial_gamma: 125,
        target_gammas: vec![-200, 0, 200],
        target_step: 1000,
        beta: 500,
        pre_decoding: true,
        pre_iteration: 2,
        maximum_iteration: 12,
        iter_per_leg: 5,
        update_mode: AdaptiveRelayUpdateMode::PerLeg,
        ensemble_size: 2,
        carry_marginal_between_legs: true,
        posterior_marginal_clamp_mode: if clamp {
            PosteriorMarginalClampMode::AbsThresholdClamp
        } else {
            PosteriorMarginalClampMode::NoClamp
        },
        posterior_marginal_abs_threshold: 2500,
    };
    AdaptiveRelayDecoder::new(matrix, min_sum(priors), config)
}

fn adaptive_trace(extra: BPExtraResult) -> AdaptiveRelayTrace {
    match extra {
        BPExtraResult::AdaptiveRelayTrace(t) => t,
        _ => panic!("the members are recorded"),
    }
}

#[test]
fn the_first_member_that_converges_wins() {
    let draws = vec![AdaptiveRelayDraws { perturbations: vec![], coins: vec![] }; 2];
    let mut decoder = adaptive(repetition_code(), vec![4000; 3], false);
    let result = decoder.decode_detailed(&vec![1, 1], &draws);
    assert!(result.success);
    assert_eq!(result.decoding, vec![0, 1, 0]);
    let trace = adaptive_trace(result.extra);
    assert_eq!(trace.winner_member_index, Some(0));
    assert_eq!(trace.executed_members, 1);
    assert_eq!(trace.member_success, vec![true]);
    assert_eq!(trace.clamp_applied_count, 0);

    let matrix = SparseBitMatrix::from_dense(&vec![vec![1, 1], vec![1, 1]], 2);
    let mut stuck = adaptive(matrix, vec![500; 2], false);
    let result = stuck.decode_detailed(&vec![1, 0], &draws);
    assert!(!result.success);
    let trace = adaptive_trace(result.extra);
    assert_eq!(trace.winner_member_index, None);
    assert_eq!(trace.executed_members, 2);
    assert_eq!(trace.member_discovery_iterations, vec![None, None]);
}

#[test]
fn clamped_posteriors_are_counted() {
    let mut decoder = adaptive(repetition_code(), vec![4000, 1000, -3000], true);
    decoder.bp_decoder.initialize_decoder();
    decoder.bp_decoder.recompute_hard_decision();
    assert_eq!(decoder.maybe_clamp_posterior(), 2);
    assert_eq!(*decoder.bp_decoder.posterior_ratios(), vec![2500, 1000, -2500]);
    assert_eq!(decoder.maybe_clamp_posterior(), 0);
}

#[test]
fn langevin_iterations_dampen_and_drop() {
    let config = LRBPDecoderConfig {
        num_sets: 2,
        osc_window: 3,
        tau: 0,
        ..LRBPDecoderConfig::with_unit(ONE)
    };
    let mut lrbp = LRBPDecoder::new(repetition_code(), min_sum(vec![4000; 3]), config);
    lrbp.bp_decoder.initialize_decoder();
    lrbp.bp_decoder.recompute_hard_decision();
    assert_eq!(lrbp.parity_violations(&vec![1, 0]), vec![1, 0]);
    let mut history: Vec<Vec<i64>> = vec![vec![]; 4];
    let draws = LangevinDraws { waits: vec![0; 4], dropouts: vec![true; 4], coins: vec![] };
    lrbp.run_langevin_iteration(&vec![1, 0], &mut history, &draws);
    assert!(history.iter().any(|h| !h.is_empty()));
    clear_history(&mut history);
    assert!(history.iter().all(|h| h.is_empty()));
    lrbp.bp_decoder.initialize_decoder();
    lrbp.run_langevin_iteration_with_dropout(&vec![1, 0], &mut history, &draws);
    lrbp.bp_decoder.initialize_decoder();
    let result = lrbp.decode_inner(&vec![1, 0], 10, false, &mut history, &vec![], &vec![]);
    assert!(result.success);
    assert_eq!(result.decoding, vec![1, 0, 0]);
}

#[test]
fn friction_is_a_logistic_curve() {
    let config = LRBPDecoderConfig::with_unit(ONE);
    let mut lrbp = LRBPDecoder::new(repetition_code(), min_sum(vec![500; 3]), config);
    lrbp.bp_decoder.initialize_decoder();
    lrbp.bp_decoder.recompute_hard_decision();
    let mut history: Vec<Vec<i64>> = vec![vec![]; 4];
    let violations = lrbp.parity_violations(&vec![1, 0]);
    lrbp.bp_decoder.run_check_to_variable_update(&vec![1, 0]);
    lrbp.apply_langevin_modifier(&mut history, &violations, &vec![]);
    // Messages of a half, with slope two: the logistic function at one.
    assert!(lrbp.bp_decoder.check_to_variable.iter().all(|m| m.abs() == 500 * 732 / 1000));
}

#[test]
fn alternating_legs_have_usual_parameters() {
    let config = LRBPDecoderConfig::default();
    assert_eq!((config.pre_iter, config.num_sets, config.set_max_iter), (80, 300, 60));
    assert_eq!((config.friction_slope, config.friction_shift, config.tau), (2000, 0, 200));
    assert_eq!(config.osc_window, 5);
    assert_eq!(config.logistic, build_logistic_table(1000));
}

#[test]
fn the_logistic_function_is_read_off_a_table() {
    let table = build_logistic_table(ONE);
    for (k, share) in table.iter().enumerate() {
        let exact = ONE as f64 / (1.0 + (-(k as f64) / 32.0).exp());
        assert!((*share as f64 - exact).abs() <= 1.0);
    }
    assert_eq!(logistic_at(&table, 32, ONE, 0), 500);
    assert_eq!(logistic_at(&table, 32, ONE, 1000), 732);
    assert_eq!(logistic_at(&table, 32, ONE, -1000), 268);
    assert_eq!(logistic_at(&table, 32, ONE, i64::MAX), 1000);
}

fn rejecting(reweighted: Vec<i64>, mode: ReweightingMode) -> RejectionDecoder {
    RejectionDecoder::new(
        repetition_code(),
        SparseBitMatrix::from_dense(&vec![vec![1, 0, 0]], 3),
        min_sum(vec![4000; 3]),
        RelayDecoderConfig {
            pre_iter: 10,
            num_sets: 0,
            stopping_criterion: StoppingCriterion::PreIter,
            ..Default::default()
        },
        RejectionConfig {
            mode,
            selection: ReweightingSelection::Random,
            k_numerator: 1,
            k_denominator: 2,
            seed: 7,
        },
        reweighted,
        vec![],
        vec![],
    )
}

fn verdict(extra: BPExtraResult) -> RejectionExtraResult {
    match extra {
        BPExtraResult::Rejection(e) => e,
        _ => panic!("the verdict is recorded"),
    }
}

#[test]
fn a_steady_estimate_is_accepted() {
    let mut decoder = rejecting(vec![4000; 3], ReweightingMode::Full);
    let result = decoder.decode_detailed(&vec![1, 0]);
    assert_eq!(result.decoding, vec![1, 0, 0]);
    let e = verdict(result.extra);
    assert_eq!(e.reject, 0);
    assert_eq!((e.r2_class, e.r3_class), (Some(true), Some(true)));
    assert!(matches!(e.r3_iter, StageIterations::Converged(_)));
    assert_eq!(e.rejection_gap, None);
}

#[test]
fn an_unsteady_estimate_is_rejected() {
    // With a far greater ratio for the error that was found, the other class is found.
    for mode in [ReweightingMode::Full, ReweightingMode::Partial] {
        let mut decoder = rejecting(vec![40_000; 3], mode);
        let result = decoder.decode_detailed(&vec![1, 0]);
        let e = verdict(result.extra);
        assert_eq!(e.reject, 2);
        assert_eq!(e.r2_class, Some(false));
        assert_eq!(e.r3_iter, StageIterations::NotRun);
        // Two errors of ratio 4 in place of one.
        assert_eq!(e.rejection_gap, Some(4000));
    }
}

#[test]
fn errors_are_chosen_for_reweighting() {
    let priors = vec![40, 10, 30, 20];
    let decoding = vec![1, 0, 1, 1];
    let mut rng = rand::rngs::StdRng::seed_from_u64(3);
    let full = RejectionConfig::default();
    assert_eq!(full.select_reweight_indices(&priors, &decoding, &mut rng), vec![0, 2, 3]);
    let by_prior = RejectionConfig {
        mode: ReweightingMode::Partial,
        selection: ReweightingSelection::Prior,
        k_numerator: 1,
        k_denominator: 2,
        seed: 0,
    };
    assert_eq!(by_prior.partial_count(3), 2);
    assert_eq!(by_prior.partial_count(1), 1);
    assert_eq!(by_prior.select_reweight_indices(&priors, &decoding, &mut rng), vec![3, 2]);
    let at_random = RejectionConfig { selection: ReweightingSelection::Random, ..by_prior };
    for _ in 0..20 {
        let picked = at_random.select_reweight_indices(&priors, &decoding, &mut rng);
        assert_eq!(picked.len(), 2);
        assert_ne!(picked[0], picked[1]);
        assert!(picked.iter().all(|v| decoding[*v] == 1));
    }
    assert_eq!(
        apply_reweighting(&priors, &vec![1, 2, 3, 4], &vec![3, 0]),
        vec![1, 10, 30, 4]
    );
}

#[test]
fn drawn_numbers_lie_in_range() {
    let mut rng = rand::rngs::StdRng::seed_from_u64(11);
    let numbers = draw_numbers(&mut rng, 5, 400);
    assert_eq!(numbers.len(), 400);
    for n in 0..5 {
        assert!(numbers.contains(&n));
    }
    assert!(numbers.iter().all(|n| *n < 5));
    let values: Vec<usize> = (10..40).collect();
    let mut drawn = draw_values(&mut rng, &values, 30);
    assert_ne!(drawn, values);
    drawn.sort();
    assert_eq!(drawn, values);
    // Other seeds draw other numbers.
    let mut other = rand::rngs::StdRng::seed_from_u64(12);
    assert_ne!(draw_numbers(&mut other, 1000, 20), draw_numbers(&mut rng, 1000, 20));
}
