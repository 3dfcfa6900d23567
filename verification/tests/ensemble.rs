use relay_bp::decoder::{
    get_decoding_quality, BPExtraResult, DecodeResult, Decoder, LegsDrawn,
};
use relay_bp::ensemble_decoder::{
    EnsembleDecoder, EnsembleExtraResult, EnsembleMode, RepulsiveConfig, SelectionStrategy,
};
use relay_bp::ensemble_members::{
    build_members, move_columns, move_values, with_ensemble_decoder, with_rejection_decoder,
    EnsembleSetup, MemberOptions, Permutations, RejectionSetup,
};
use relay_bp::lbf::{LbfDecoder, LbfDecoderConfig};
use relay_bp::matrix::{Bit, SparseBitMatrix};
use relay_bp::min_sum::{MinSumBPDecoder, MinSumDecoderConfig};
use relay_bp::observable_decoder::{ObservableDecoder, ObservableDecoderRunner};
use relay_bp::options::OptionError;
use relay_bp::rejection_decoder::{ReweightingMode, ReweightingSelection};
use relay_bp::relay::{RelayDecoderConfig, RelayDraws, StoppingCriterion};
use relay_bp::slg_mbp::trace::SLGMBPRuntimeTrace;

const ONE: i64 = 1_000;

fn repetition_code() -> SparseBitMatrix {
    SparseBitMatrix::from_dense(&vec![vec![1, 1, 0], vec![0, 1, 1]], 3)
}

fn observables() -> SparseBitMatrix {
    SparseBitMatrix::from_dense(&vec![vec![1, 0, 0]], 3)
}

fn min_sum_config(priors: Vec<i64>) -> MinSumDecoderConfig {
    MinSumDecoderConfig {
        log_prior_ratios: priors,
        max_iter: 10,
        data_scale_value: Some(ONE),
        ..Default::default()
    }
}

fn min_sum(priors: Vec<i64>) -> MinSumBPDecoder {
    MinSumBPDecoder::new(repetition_code(), min_sum_config(priors))
}

fn outcome(decoding: Vec<Bit>, success: bool, iterations: usize) -> DecodeResult {
    DecodeResult {
        decoded_detectors: repetition_code().mul_mod2(&decoding),
        posterior_ratios: decoding.iter().map(|b| if *b == 1 { -4 } else { 7 }).collect(),
        decoding,
        success,
        decoding_quality: 0,
        iterations,
        max_iter: 10,
        logical_gap: None,
        extra: BPExtraResult::NoExtra,
    }
}

fn record(result: &DecodeResult) -> EnsembleExtraResult {
    match &result.extra {
        BPExtraResult::Ensemble(e) => e.clone(),
        _ => panic!("the members are recorded"),
    }
}

fn ensemble(strategy: SelectionStrategy, max_index: Option<usize>) -> EnsembleDecoder<MinSumBPDecoder> {
    EnsembleDecoder::new(
        vec![min_sum(vec![5000; 3])],
        strategy,
        Some(vec![2000, 3000, 4000]),
        Some(observables()),
        max_index,
    )
}

#[test]
fn the_lightest_estimate_is_taken() {
    let combined = ensemble(SelectionStrategy::MostLikely, None).combine(vec![
        outcome(vec![0, 1, 1], true, 3),
        outcome(vec![1, 0, 0], true, 4),
        outcome(vec![0, 0, 0], false, 10),
        outcome(vec![1, 0, 0], true, 2),
    ]);
    assert_eq!(combined.decoding, vec![1, 0, 0]);
    assert_eq!(combined.iterations, 4);
    // The other class weighs 7, this one 2.
    assert_eq!(combined.logical_gap, Some(5000));
    let e = record(&combined);
    assert_eq!(e.selected_index, 1);
    assert_eq!(e.llr_sums, vec![7000, 2000, 0, 2000]);
    assert_eq!(e.cosets, vec![vec![0], vec![1], vec![0], vec![1]]);
    assert_eq!(e.child_success, vec![true, true, false, true]);
    assert_eq!(e.child_iterations, vec![3, 4, 10, 2]);
    assert_eq!(e.effective_iterations, None);
    assert_eq!(e.converged_count, 3);
    assert_eq!((e.selected_coset_votes, e.runner_up_coset_votes), (Some(2), Some(1)));
    assert_eq!((e.selected_coset_iterations, e.runner_up_coset_iterations), (Some(6), Some(3)));
    assert_eq!(e.ensemble_iteration_total, 3 + 4 + 10 + 2);
    // The means cut the fraction off: (7 - 4 + 7 - 4) / 4, (-4 + 7 + 7 + 7) / 4.
    assert_eq!(e.ensemble_mean_posterior_ratios, Some(vec![1, 4, 4]));
    assert_eq!(e.ensemble_posterior_squares, Some(vec![122, 91, 91]));
    assert_eq!(e.ensemble_iteration_dist, e.child_iterations);
    assert_eq!(e.ensemble_iteration_squares, 9 + 16 + 100 + 4);
    assert_eq!(e.residual_result, None);
}

#[test]
fn the_runner_up_is_the_class_with_the_second_most_votes() {
    let two_observables = SparseBitMatrix::from_dense(&vec![vec![1, 0, 0], vec![0, 1, 0]], 3);
    let combined = EnsembleDecoder::new(
        vec![min_sum(vec![5000; 3])],
        SelectionStrategy::MostLikely,
        Some(vec![2000, 3000, 4000]),
        Some(two_observables),
        None,
    )
    .combine(vec![
        outcome(vec![1, 0, 0], true, 3),
        outcome(vec![0, 1, 0], true, 4),
        outcome(vec![0, 0, 1], true, 5),
        outcome(vec![0, 0, 1], true, 7),
    ]);
    assert_eq!(combined.decoding, vec![1, 0, 0]);
    // The next lightest class weighs 3.
    assert_eq!(combined.logical_gap, Some(1000));
    let e = record(&combined);
    assert_eq!((e.selected_coset_votes, e.runner_up_coset_votes), (Some(1), Some(2)));
    assert_eq!((e.selected_coset_iterations, e.runner_up_coset_iterations), (Some(3), Some(12)));
}

#[test]
fn an_ensemble_needs_no_observables_for_the_lightest() {
    let mut decoder = EnsembleDecoder::new(
        vec![min_sum(vec![5000; 3]), min_sum(vec![9000, 3000, 9000])],
        SelectionStrategy::MostLikely,
        Some(vec![5000; 3]),
        None,
        None,
    );
    let result = decoder.decode_detailed(&vec![1, 1]);
    assert!(result.success);
    assert_eq!(result.decoding, vec![0, 1, 0]);
    let e = record(&result);
    assert_eq!(e.llr_sums, vec![5000, 5000]);
    assert_eq!(e.cosets, vec![Vec::<Bit>::new(), vec![]]);
}

#[test]
fn the_majority_outvotes_the_lightest() {
    let results = vec![
        outcome(vec![1, 0, 0], true, 3),
        outcome(vec![0, 1, 1], true, 4),
        outcome(vec![0, 1, 0], true, 2),
    ];
    let combined = ensemble(SelectionStrategy::MajorityVote, None).combine(results.clone());
    assert_eq!(combined.decoding, vec![0, 1, 0]);
    assert_eq!(record(&combined).selected_index, 2);
    assert_eq!(record(&combined).effective_iterations, Some(4));
    // The second class is lighter.
    assert_eq!(combined.logical_gap, Some(-1000));
    let lightest = ensemble(SelectionStrategy::MostLikely, None).combine(results);
    assert_eq!(lightest.decoding, vec![1, 0, 0]);
}

#[test]
fn members_past_the_limit_are_taken_last() {
    let results = vec![
        outcome(vec![0, 1, 1], true, 3),
        outcome(vec![1, 0, 0], true, 4),
    ];
    let combined = ensemble(SelectionStrategy::MostLikely, Some(0)).combine(results);
    assert_eq!(combined.decoding, vec![0, 1, 1]);
    let results = vec![
        outcome(vec![0, 1, 1], false, 10),
        outcome(vec![1, 0, 0], true, 4),
    ];
    let combined = ensemble(SelectionStrategy::MostLikely, Some(0)).combine(results);
    assert_eq!(combined.decoding, vec![1, 0, 0]);
    assert_eq!(combined.logical_gap, Some(i128::MAX));
}

#[test]
fn without_a_convergent_member_signs_are_given() {
    let combined = ensemble(SelectionStrategy::MostLikely, None).combine(vec![
        outcome(vec![0, 1, 1], false, 3),
        outcome(vec![1, 0, 0], false, 8),
    ]);
    assert!(!combined.success);
    assert_eq!(combined.decoding, vec![0, 1, 1]);
    assert_eq!(combined.iterations, 8);
    let e = record(&combined);
    assert_eq!(e.residual_result, Some(vec![vec![0, 1, 1], vec![1, 0, 0]]));
    assert_eq!(e.converged_count, 0);
    assert_eq!(e.selected_coset_votes, None);
}

#[test]
fn an_ensemble_decodes_with_every_member() {
    let mut decoder = EnsembleDecoder::new_with_mode(
        vec![min_sum(vec![5000, 5000, 5000]), min_sum(vec![9000, 3000, 9000])],
        SelectionStrategy::MostLikely,
        Some(vec![5000, 5000, 5000]),
        Some(observables()),
        None,
        EnsembleMode::Repulsive,
        Some(RepulsiveConfig { repulsive_size: 1, ..RepulsiveConfig::with_unit(ONE) }),
    );
    let result = decoder.decode_detailed(&vec![1, 1]);
    assert!(result.success);
    assert_eq!(result.decoding, vec![0, 1, 0]);
    let e = record(&result);
    assert_eq!(e.child_success, vec![true, true]);
    assert_eq!(e.all_corrections.len(), 2);
    assert!(e.effective_iterations.is_some());
    assert_eq!(e.ensemble_posterior_ratios.len(), 2);
    let repulsive = RepulsiveConfig::with_unit(ONE);
    assert_eq!(repulsive.repulsive_gamma_dist, (-500, -100));
    assert_eq!(repulsive.abs_llr_threshold, 2000);
}

#[test]
fn columns_and_values_move_alike() {
    let h = repetition_code();
    let perm = vec![2, 0, 1];
    let moved = move_columns(&h, &perm);
    let values = move_values(&vec![10, 20, 30], &perm);
    for c in 0..2 {
        for j in 0..3 {
            assert_eq!(
                moved.row_indices(c).contains(&perm[j]),
                h.row_indices(c).contains(&j)
            );
        }
    }
    assert_eq!(values, vec![20, 30, 10]);
}

#[test]
fn moved_errors_have_the_same_syndrome() {
    let h = repetition_code();
    let perm = vec![2, 0, 1];
    let moved = move_columns(&h, &perm);
    for errors in [vec![1, 0, 0], vec![0, 1, 0], vec![1, 1, 0], vec![1, 0, 1]] {
        let mut there: Vec<Bit> = vec![0; 3];
        for j in 0..3 {
            there[perm[j]] = errors[j];
        }
        assert_eq!(moved.mul_mod2(&there), h.mul_mod2(&errors));
    }
}

fn member_options() -> MemberOptions {
    MemberOptions {
        relay: RelayDecoderConfig {
            pre_iter: 10,
            num_sets: 1,
            set_max_iter: 10,
            stopping_criterion: StoppingCriterion::NConv { stop_after: 1 },
            ..Default::default()
        },
        repulsive_size: 1,
        repulsive: true,
        abs_llr_threshold: Some(2 * ONE),
        pulse_per_leg: Some(1),
        start_leg: Some(0),
        seed: 40,
    }
}

fn member_supplies() -> Vec<Vec<LegsDrawn<RelayDraws>>> {
    let drawn = LegsDrawn {
        draws: vec![RelayDraws { gammas: vec![0; 3], repulsive_gammas: vec![-100; 3] }],
        coins: vec![],
    };
    vec![vec![drawn.clone(), drawn.clone()], vec![drawn.clone(), drawn]]
}

#[test]
fn members_decode_moved_codes() {
    let options = member_options();
    assert!(options.member_relay_config(0).repulsive);
    assert!(!options.member_relay_config(1).repulsive);
    assert_eq!(options.member_seed(2), 42);
    let permutations = Some(Permutations {
        columns: vec![vec![0, 1, 2], vec![2, 0, 1]],
        rows: vec![vec![0, 1], vec![0, 1]],
    });
    let members = build_members(
        &repetition_code(),
        &min_sum_config(vec![5000; 3]),
        &options,
        &permutations,
        vec![vec![5000; 3], vec![5000; 3]],
        member_supplies(),
    );
    let mut members = members.unwrap();
    assert_eq!(members.len(), 2);
    for member in members.iter_mut() {
        let result = member.decode_detailed(&vec![1, 0]);
        assert!(result.success);
        assert_eq!(member.check_matrix().mul_mod2(&result.decoding), vec![1, 0]);
    }
}

#[test]
fn members_need_as_many_permutations() {
    let few_columns = Some(Permutations {
        columns: vec![vec![0, 1, 2]],
        rows: vec![vec![0, 1], vec![0, 1]],
    });
    let few_rows = Some(Permutations {
        columns: vec![vec![0, 1, 2], vec![2, 0, 1]],
        rows: vec![vec![0, 1]],
    });
    for (permutations, error) in [
        (few_columns, OptionError::ColumnPermutations),
        (few_rows, OptionError::RowPermutations),
    ] {
        let members = build_members(
            &repetition_code(),
            &min_sum_config(vec![5000; 3]),
            &member_options(),
            &permutations,
            vec![vec![5000; 3], vec![5000; 3]],
            member_supplies(),
        );
        assert_eq!(members.err(), Some(error));
    }
}

fn ensemble_setup<'a>() -> EnsembleSetup<'a> {
    EnsembleSetup {
        relay: member_options().relay,
        stopping_criterion: "nconv",
        stop_nconv: 1,
        selection_strategy: "Majority-Vote",
        selection_max_index: None,
        ensemble_mode: "Repulsive",
        repulsive_size: 1,
        repulsive_gamma_dist: None,
        abs_llr_threshold: None,
        pulse_per_leg: None,
        start_leg: None,
        seed: 3,
        unit: ONE,
    }
}

#[test]
fn an_ensemble_is_set_up_by_names() {
    let mut runner = with_ensemble_decoder(
        &repetition_code(),
        observables(),
        &min_sum_config(vec![5000; 3]),
        ensemble_setup(),
        &None,
        vec![vec![4000, 5000, 6000]],
        member_supplies(),
    )
    .unwrap();
    let e = runner.get_decoder();
    assert_eq!(e.strategy, SelectionStrategy::MajorityVote);
    assert_eq!(e.mode, EnsembleMode::Repulsive);
    assert_eq!(e.original_log_priors, Some(vec![5000; 3]));
    let repulsive = e.repulsive_config.clone().unwrap();
    assert_eq!(repulsive.repulsive_size, 1);
    assert_eq!(repulsive.repulsive_gamma_dist, (-500, -100));
    assert_eq!(repulsive.abs_llr_threshold, 2 * ONE);
    assert_eq!(e.decoders.len(), 2);
    assert_eq!(e.decoders[0].log_prior_ratios(), vec![5000; 3]);
    assert_eq!(e.decoders[1].log_prior_ratios(), vec![4000, 5000, 6000]);
    assert!(runner.can_decode(2) && !runner.can_decode(3));
    let detailed = runner.decode_observables_detailed(&vec![1, 0]);
    assert!(runner.can_decode(1) && !runner.can_decode(2));
    assert_eq!(runner.get_decoder().mode, EnsembleMode::Repulsive);
    assert_eq!(runner.get_decoder().repulsive_config.clone().unwrap().repulsive_size, 1);
    assert!(detailed.converged);
    assert_eq!(detailed.observables, vec![1]);
    let result = detailed.physical_decode_result.unwrap();
    assert_eq!(result.decoded_detectors, repetition_code().mul_mod2(&result.decoding));
    assert_eq!(result.success, result.decoded_detectors == vec![1, 0]);
}

#[test]
fn an_ensemble_needs_a_permutation_for_each_member() {
    let permutations = Some(Permutations { columns: vec![vec![0, 1, 2]], rows: vec![vec![0, 1]] });
    let runner = with_ensemble_decoder(
        &repetition_code(),
        observables(),
        &min_sum_config(vec![5000; 3]),
        ensemble_setup(),
        &permutations,
        vec![vec![5000; 3]],
        member_supplies(),
    );
    assert_eq!(runner.err(), Some(OptionError::ColumnPermutations));
}

#[test]
fn a_rejection_decoder_is_set_up_by_names() {
    for (reweighted, reject) in [(5000, 0), (50_000, 2)] {
        let setup = RejectionSetup {
            relay: RelayDecoderConfig {
                pre_iter: 10,
                num_sets: 0,
                repulsive: true,
                start_leg: Some(1),
                ..Default::default()
            },
            stopping_criterion: "pre_iter",
            stop_nconv: 1,
            reweighting_mode: "PARTIAL",
            reweighting_selection: "prior_reweighting",
            k_numerator: 1,
            k_denominator: 2,
            seed: 9,
            unit: ONE,
        };
        let mut runner = with_rejection_decoder(
            repetition_code(),
            observables(),
            min_sum_config(vec![5000; 3]),
            setup,
            vec![reweighted; 3],
            vec![],
            vec![],
        );
        let decoder = runner.get_decoder();
        assert_eq!(decoder.config.mode, ReweightingMode::Partial);
        assert_eq!(decoder.config.selection, ReweightingSelection::Prior);
        assert_eq!(decoder.config.seed, 9);
        assert!(!decoder.relay.relay_config.repulsive);
        assert_eq!(decoder.relay.relay_config.start_leg, None);
        match runner.decode_detailed(&vec![1, 0]).extra {
            BPExtraResult::Rejection(e) => assert_eq!(e.reject, reject),
            _ => panic!("the verdict is recorded"),
        }
    }
}

fn runner() -> ObservableDecoderRunner<MinSumBPDecoder> {
    ObservableDecoderRunner::new(min_sum(vec![5000; 3]), observables(), true, ONE)
}

#[test]
fn observables_are_decoded() {
    let mut runner = runner();
    assert_eq!(runner.decode_observables(&vec![1, 0]), vec![1]);
    assert_eq!(runner.decode_observables(&vec![0, 1]), vec![0]);
    assert_eq!(runner.compute_observables(&vec![1, 1, 0]), vec![1]);
    let detailed = runner.decode_observables_detailed(&vec![1, 0]);
    assert_eq!(detailed.observables, vec![1]);
    assert!(detailed.converged);
    assert!(!detailed.force_logical_error);
    assert_eq!(detailed.confidence_score_token, None);
    assert!(detailed.true_decoding.is_none());
    assert_eq!(detailed.physical_decode_result.unwrap().decoding, vec![1, 0, 0]);
    let batch = runner.decode_observables_batch(&vec![vec![1, 0], vec![0, 1]]);
    assert_eq!(batch, vec![vec![1], vec![0]]);
    assert_eq!(runner.decode_observables_detailed_batch(&vec![vec![1, 0]]).len(), 1);
    assert_eq!(ObservableDecoder::observable_error_matrix(&runner).rows, 1);
    runner.get_decoder_mut().config.set_max_iter(3);
    assert_eq!(runner.get_decoder().config.max_iter, 3);
}

#[test]
fn errors_tell_whether_the_decoding_is_right() {
    let mut runner = runner();
    let right = runner.from_errors_decode_observables_detailed(&vec![1, 0, 0]);
    let truth = right.true_decoding.unwrap();
    assert!(!truth.error_detected && !truth.error_mismatch_detected);
    // Two errors look like one, of lower quality.
    let wrong = runner.from_errors_decode_observables_detailed(&vec![0, 1, 1]);
    assert_eq!(wrong.observables, vec![0]);
    let truth = wrong.true_decoding.unwrap();
    assert!(truth.error_detected && truth.error_mismatch_detected);
    assert!(truth.worse_decoding_quality_error && !truth.better_decoding_quality_error);
    assert!(!truth.unconverged_no_error);
    // The estimate has a higher quality than the errors.
    let mut heavy = outcome(vec![0, 1, 1], true, 3);
    heavy.decoding_quality = 10_000;
    let truth = runner.observe_errors(&vec![1, 0, 0], heavy).true_decoding.unwrap();
    assert!(truth.error_detected);
    assert!(truth.better_decoding_quality_error && !truth.worse_decoding_quality_error);
    assert_eq!(runner.from_errors_decode_observables(&vec![0, 0, 1]), vec![0]);
    let batch = runner.from_errors_decode_observables_batch(&vec![vec![1, 0, 0], vec![0, 0, 1]]);
    assert_eq!(batch, vec![vec![1], vec![0]]);
    let detailed = runner.from_errors_decode_observables_detailed_batch(&vec![vec![1, 0, 0]]);
    assert_eq!(detailed.len(), 1);
}

#[test]
fn a_failure_counts_as_an_error() {
    let mut stuck = outcome(vec![0, 0, 0], false, 10);
    let observed = runner().observe(stuck.clone());
    assert!(observed.force_logical_error);
    assert!(!observed.converged);
    assert_eq!(observed.confidence_score_token.as_deref(), Some("0.0"));
    let truth = runner().observe_errors(&vec![0, 0, 1], stuck.clone()).true_decoding.unwrap();
    assert!(truth.unconverged_no_error);
    stuck.extra = BPExtraResult::LBFTrace { converged: true };
    assert!(runner().observe(stuck).converged);
}

fn searched(decodings: Vec<Vec<Bit>>, weights: Vec<i128>) -> DecodeResult {
    let mut result = outcome(decodings[0].clone(), true, 5);
    result.extra = BPExtraResult::SLGMBPTrace(SLGMBPRuntimeTrace {
        phase1_converged: false,
        phase1_iterations: 4,
        total_iterations: 5,
        generation_count: 1,
        generation_best_fitness: vec![],
        selected_solution_posterior: None,
        accepted_solution_decodings: decodings,
        accepted_solution_weights: weights,
        accepted_solution_discovery_iterations: vec![],
        residual_weight_history: vec![],
        gamma_history: vec![],
        detailed_dynamics: None,
        score_spike_trace: None,
    });
    result
}

#[test]
fn the_token_tells_how_clear_the_decision_was() {
    let runner = runner();
    let between_classes = searched(vec![vec![1, 0, 0], vec![0, 1, 1]], vec![2000, 4250]);
    assert_eq!(
        runner.compute_confidence_score_token(&between_classes).as_deref(),
        Some("2.25")
    );
    let within_a_class = searched(vec![vec![0, 0, 1], vec![0, 1, 1]], vec![2000, 5000]);
    assert_eq!(
        runner.compute_confidence_score_token(&within_a_class).as_deref(),
        Some("s3")
    );
    let alone = searched(vec![vec![0, 0, 1]], vec![2000]);
    assert_eq!(runner.compute_confidence_score_token(&alone).as_deref(), Some("inf"));
}

#[test]
fn the_weight_of_errors_is_the_sum_of_their_ratios() {
    assert_eq!(get_decoding_quality(&vec![3, 5, i64::MAX], &vec![1, 1, 1]), 8);
    let flips = LbfDecoder::new(
        repetition_code(),
        LbfDecoderConfig { max_iter: 5, weight: 10, k_step: 2 },
    );
    assert_eq!(flips.get_decoding_quality(&vec![1, 1, 0]), 0);
    let bp = min_sum(vec![10, 20, 30]);
    assert_eq!(Decoder::get_decoding_quality(&bp, &vec![1, 0, 1]), 40);
    assert_eq!(bp.get_detectors_batch(&vec![vec![1, 0, 0], vec![0, 1, 0]]), vec![vec![1, 0], vec![1, 1]]);
}
