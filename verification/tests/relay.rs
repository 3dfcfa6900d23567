use rand::distributions::{Distribution, Uniform};
use rand::rngs::StdRng;
use rand::SeedableRng;
use relay_bp::clip_bp::{ClipBpConfig, ClipBpDecoder, SignUpdateMode};
use relay_bp::decoder::{BPExtraResult, Decoder, LegTrace, LegsDrawn};
use relay_bp::lrbp::legs::{
    build_residual_targets, hard_decision_from_marginal, syndrome_from_hard_decision,
    LRBPDecoder, LRBPDecoderConfig,
};
use relay_bp::matrix::SparseBitMatrix;
use relay_bp::min_sum::MinSumDecoderConfig;
use relay_bp::relay::{
    DrawnRelayDecoder, RelayDecoder, RelayDecoderConfig, RelayDraws, StoppingCriterion,
};

const ONE: i64 = 1_000_000;

fn fixed(x: f64) -> i64 {
    (x * ONE as f64).round() as i64
}

fn prior(p: f64) -> i64 {
    fixed(((1.0 - p) / p).ln())
}

fn repetition_code() -> SparseBitMatrix {
    SparseBitMatrix::from_dense(&vec![vec![1, 1, 0], vec![0, 1, 1]], 3)
}

fn min_sum(p: f64, max_iter: usize, gamma0: Option<f64>) -> MinSumDecoderConfig {
    MinSumDecoderConfig {
        log_prior_ratios: vec![prior(p); 3],
        max_iter,
        alpha: Some(ONE),
        gamma0: gamma0.map(fixed),
        data_scale_value: Some(ONE),
        ..Default::default()
    }
}

fn trace(extra: BPExtraResult) -> LegTrace {
    match extra {
        BPExtraResult::RelayTrace(t) => t,
        _ => panic!("the legs are recorded"),
    }
}

#[test]
fn min_sum_decode_repetition_code() {
    let iterations = 10;
    let config = RelayDecoderConfig {
        pre_iter: iterations,
        num_sets: 0,
        set_max_iter: 150,
        stopping_criterion: StoppingCriterion::PreIter,
        explicit_gammas: None,
        ..Default::default()
    };
    let mut decoder = RelayDecoder::new(repetition_code(), min_sum(0.003, iterations, None), config);
    let cases = vec![
        (vec![0, 0, 0], vec![0, 0]),
        (vec![1, 0, 0], vec![1, 0]),
        (vec![0, 1, 0], vec![1, 1]),
        (vec![0, 0, 1], vec![0, 1]),
    ];
    for (error, detectors) in cases {
        let result = decoder.decode_detailed(&detectors, &vec![], &vec![]);
        assert_eq!(result.decoding, error);
        assert_eq!(result.decoded_detectors, detectors);
        assert_eq!(result.max_iter, iterations);
        assert!(result.success);
    }
}

fn build_decoder(sign_mode: SignUpdateMode) -> ClipBpDecoder {
    let clip_config = ClipBpConfig {
        min_llr: fixed(0.3),
        sign_mode,
        gamma_first: fixed(0.125),
        max_legs: 3,
        max_iter_first: 8,
        max_iter: 6,
        max_solutions: 1,
    };
    ClipBpDecoder::new(repetition_code(), min_sum(0.05, 12, Some(0.125)), clip_config)
}

#[test]
fn zero_syndrome_converges_for_all_sign_modes() {
    let detectors = vec![0, 0];
    let draws = vec![vec![fixed(0.21); 3], vec![fixed(-0.2); 3]];
    for mode in [
        SignUpdateMode::Naive,
        SignUpdateMode::Hysteresis,
        SignUpdateMode::NeighborOnly,
    ] {
        let mut decoder = build_decoder(mode);
        let result = decoder.decode_detailed(&detectors, &draws, &vec![]);

        assert!(result.success);
        assert_eq!(result.decoded_detectors, detectors);
        assert_eq!(result.decoding.len(), 3);
    }
}

#[test]
fn lrbp_decode_repetition_code() {
    let config = LRBPDecoderConfig {
        pre_iter: 40,
        num_sets: 20,
        set_max_iter: 20,
        osc_window: 4,
        friction_slope: fixed(2.0),
        friction_shift: fixed(0.0),
        tau: fixed(0.2),
        ..LRBPDecoderConfig::with_unit(ONE)
    };
    let mut decoder = LRBPDecoder::new(repetition_code(), min_sum(0.003, 120, Some(0.1)), config);
    let mut rng = StdRng::seed_from_u64(7);
    let interval = Uniform::new(-0.24, 0.66);
    let draws: Vec<Vec<i64>> =
        (0..20).map(|_| (0..3).map(|_| fixed(interval.sample(&mut rng))).collect()).collect();

    let detectors = vec![1, 1];
    let result = decoder.decode_detailed(&detectors, &draws, &vec![]);

    assert!(result.success);
    assert_eq!(result.decoding, vec![0, 1, 0]);
    assert_eq!(result.decoded_detectors, detectors);
    assert!(result.iterations <= 400);
}

/// Two equal columns: plain belief propagation cannot tell them apart.
fn ambiguous_code() -> SparseBitMatrix {
    SparseBitMatrix::from_dense(&vec![vec![1, 1, 0], vec![1, 1, 1]], 3)
}

#[test]
fn a_relay_ends_with_the_lightest_solution() {
    let config = RelayDecoderConfig {
        pre_iter: 5,
        num_sets: 3,
        set_max_iter: 7,
        stopping_criterion: StoppingCriterion::All,
        ..Default::default()
    };
    let mut min_sum = min_sum(0.05, 12, Some(0.1));
    min_sum.log_prior_ratios = vec![fixed(2.0), fixed(2.5), fixed(3.0)];
    let relay = RelayDecoder::new(ambiguous_code(), min_sum, config);
    let draws: Vec<RelayDraws> = [[0.3, -0.2, 0.1], [-0.2, 0.4, 0.1], [0.1, 0.1, 0.1]]
        .iter()
        .map(|g| RelayDraws {
            gammas: g.iter().map(|x| fixed(*x)).collect(),
            repulsive_gammas: vec![],
        })
        .collect();
    let mut decoder =
        DrawnRelayDecoder { relay, supply: vec![LegsDrawn { draws, coins: vec![] }] };
    let result = decoder.decode_detailed(&vec![1, 1]);
    let legs = &decoder.relay.legs;
    assert_eq!(legs.len(), 4);
    assert!(legs[0].iterations <= 5);
    assert!(legs[1..].iter().all(|leg| leg.iterations <= 7));
    assert_eq!(legs.iter().map(|leg| leg.iterations).sum::<usize>(), result.iterations);
    assert_eq!(result.success, legs.iter().any(|leg| leg.converged));
    for leg in legs.iter().filter(|leg| leg.converged) {
        assert!(result.decoding_quality <= leg.quality);
    }
    assert!(result.success);
    assert_eq!(result.decoded_detectors, vec![1, 1]);
    assert_eq!(ambiguous_code().mul_mod2(&result.decoding), vec![1, 1]);
    assert_eq!(decoder.get_decoding_quality(&result.decoding), result.decoding_quality);
    assert!(matches!(result.extra, BPExtraResult::NoExtra));
    let best = result.decoding_quality;
    if let Some(l) = decoder.relay.unique_best_leg() {
        assert_eq!(decoder.relay.legs[l].quality, best);
    }
}

#[test]
fn every_decoding_uses_up_its_own_draws() {
    let config = RelayDecoderConfig {
        pre_iter: 1,
        num_sets: 1,
        set_max_iter: 3,
        stopping_criterion: StoppingCriterion::All,
        ..Default::default()
    };
    let mut min_sum = min_sum(0.05, 12, Some(0.1));
    min_sum.log_prior_ratios = vec![fixed(2.0), fixed(2.5), fixed(3.0)];
    let fresh = RelayDecoder::new(ambiguous_code(), min_sum, config);
    let drawn = |gamma: f64| LegsDrawn {
        draws: vec![RelayDraws { gammas: vec![fixed(gamma); 3], repulsive_gammas: vec![] }],
        coins: vec![],
    };
    let mut decoder =
        DrawnRelayDecoder { relay: fresh.clone(), supply: vec![drawn(0.3), drawn(-0.2)] };
    let mut results = vec![];
    for (left, gamma) in [(1, 0.3), (0, -0.2)] {
        assert!(decoder.can_decode(left + 1) && !decoder.can_decode(left + 2));
        let result = decoder.decode_detailed(&vec![1, 1]);
        assert_eq!(decoder.supply.len(), left);
        assert_eq!(decoder.relay.bp_decoder.memory_strengths, vec![fixed(gamma); 3]);
        let alone = fresh.clone().decode_detailed(&vec![1, 1], &drawn(gamma).draws, &vec![]);
        assert_eq!(result.posterior_ratios, alone.posterior_ratios);
        results.push(result.posterior_ratios);
    }
    assert_ne!(results[0], results[1]);
}

#[test]
fn a_relay_stops_after_enough_solutions() {
    for stop_after in 1..=3 {
        let config = RelayDecoderConfig {
            pre_iter: 10,
            num_sets: 5,
            set_max_iter: 10,
            explicit_gammas: Some(vec![vec![0, 0, 0]]),
            stopping_criterion: StoppingCriterion::NConv { stop_after },
            ..Default::default()
        };
        let mut relay = RelayDecoder::new(repetition_code(), min_sum(0.01, 12, Some(0.1)), config);
        let result = relay.decode_detailed(&vec![1, 0], &vec![], &vec![]);
        assert!(result.success);
        assert_eq!(relay.legs.iter().filter(|leg| leg.converged).count(), stop_after);
        assert!(relay.legs.last().unwrap().converged);
    }
}

#[test]
fn the_iteration_that_converges_counts() {
    let config = RelayDecoderConfig {
        pre_iter: 10,
        num_sets: 0,
        set_max_iter: 150,
        stopping_criterion: StoppingCriterion::PreIter,
        ..Default::default()
    };
    let mut relay = RelayDecoder::new(repetition_code(), min_sum(0.003, 10, None), config);
    let result = relay.decode_detailed(&vec![0, 0], &vec![], &vec![]);
    assert!(result.success);
    assert_eq!(result.decoding, vec![0, 0, 0]);
    assert_eq!(result.max_iter, 10);
    assert_eq!(result.iterations, 1);
    assert_eq!(result.logical_gap, None);
}

#[test]
fn legs_without_iterations_explain_only_no_error() {
    let config = RelayDecoderConfig {
        pre_iter: 0,
        num_sets: 0,
        stopping_criterion: StoppingCriterion::PreIter,
        ..Default::default()
    };
    let mut relay = RelayDecoder::new(repetition_code(), min_sum(0.01, 10, None), config);
    let config =
        LRBPDecoderConfig { pre_iter: 0, num_sets: 1, ..LRBPDecoderConfig::with_unit(ONE) };
    let mut lrbp = LRBPDecoder::new(repetition_code(), min_sum(0.01, 10, None), config);
    let mut clip = build_decoder(SignUpdateMode::Naive);
    clip.clip_config.max_legs = 1;
    clip.clip_config.max_iter_first = 0;
    for (detectors, success) in [(vec![0, 0], true), (vec![1, 0], false)] {
        for result in [
            relay.decode_detailed(&detectors, &vec![], &vec![]),
            lrbp.decode_detailed(&detectors, &vec![], &vec![]),
            clip.decode_detailed(&detectors, &vec![], &vec![]),
        ] {
            assert_eq!(result.success, success);
            assert_eq!(result.decoded_detectors, vec![0, 0]);
            assert_eq!(result.iterations, 0);
        }
    }
}

#[test]
fn confident_variables_repel() {
    let config = RelayDecoderConfig {
        pre_iter: 0,
        num_sets: 1,
        set_max_iter: 1,
        repulsive: true,
        abs_llr_threshold: Some(fixed(2.0)),
        pulse_per_leg: Some(1),
        start_leg: Some(0),
        ..Default::default()
    };
    let mut min_sum = min_sum(0.05, 12, Some(0.1));
    min_sum.log_prior_ratios = vec![fixed(3.0), fixed(2.0), fixed(2.5)];
    let mut relay = RelayDecoder::new(repetition_code(), min_sum, config);
    assert!(relay.should_apply_repulsive(1));
    let draws = vec![RelayDraws {
        gammas: vec![fixed(0.1), fixed(0.2), fixed(0.3)],
        repulsive_gammas: vec![fixed(-0.1), fixed(-0.2), fixed(-0.3)],
    }];
    relay.decode_detailed(&vec![1, 0], &draws, &vec![]);
    assert_eq!(
        relay.bp_decoder.memory_strengths,
        vec![fixed(-0.1), fixed(0.2), fixed(-0.3)]
    );
}

#[test]
fn legs_repel_in_pulses() {
    let config = RelayDecoderConfig {
        num_sets: 6,
        repulsive: true,
        abs_llr_threshold: Some(fixed(1.0)),
        pulse_per_leg: Some(2),
        start_leg: Some(1),
        ..Default::default()
    };
    let relay = RelayDecoder::new(repetition_code(), min_sum(0.01, 12, Some(0.1)), config);
    let pulses: Vec<bool> = (0..6).map(|set| relay.should_apply_repulsive(set)).collect();
    assert_eq!(pulses, vec![false, false, true, false, true, false]);
}

#[test]
fn clipped_legs_end_with_the_lightest_solution() {
    let mut clip = build_decoder(SignUpdateMode::Hysteresis);
    clip.clip_config.max_solutions = 3;
    let draws = vec![vec![fixed(0.21); 3], vec![fixed(-0.2); 3]];
    let result = clip.decode_detailed(&vec![1, 1], &draws, &vec![]);
    assert!(result.success);
    assert_eq!(result.decoding, vec![0, 1, 0]);
    assert_eq!(result.decoding_quality, prior(0.05) as i128);
    let legs = trace(result.extra);
    assert!(legs.leg_success.len() <= 3);
    assert!(legs.leg_iterations[0] <= 8);
}

#[test]
fn marginals_and_residuals() {
    let code = repetition_code();
    assert_eq!(hard_decision_from_marginal(&vec![-1, 0, 1]), vec![1, 0, 0]);
    assert_eq!(syndrome_from_hard_decision(&code, &vec![1, 1], &vec![1, 0, 0]), vec![0, 1]);
    let (targets, mask) = build_residual_targets(&code, &vec![1, 1], &vec![-5, 5, 5]);
    assert_eq!(targets, vec![1]);
    // The last two variables take part in that check.
    assert_eq!(mask, vec![false, true, true]);
}

#[test]
fn an_even_leg_stops_when_explained() {
    let mut lrbp = LRBPDecoder::new(
        repetition_code(),
        min_sum(0.01, 12, Some(0.1)),
        LRBPDecoderConfig { num_sets: 4, ..LRBPDecoderConfig::with_unit(ONE) },
    );
    lrbp.bp_decoder.initialize_decoder();
    let result = lrbp.run_even_surgical_leg(&vec![0, 1], &vec![], 20, &vec![1]);
    assert!(result.success);
    assert_eq!(result.decoding, vec![0, 0, 1]);
    lrbp.bp_decoder.initialize_decoder();
    let standard = lrbp.run_standard_leg(&vec![0, 1], &vec![], 20);
    assert_eq!(standard.decoding, vec![0, 0, 1]);
}

#[test]
fn a_dynamic_leg_updates_the_surest_check_first() {
    let config =
        LRBPDecoderConfig { num_sets: 4, t_dyn: 10, ..LRBPDecoderConfig::with_unit(ONE) };
    let mut bp = min_sum(0.01, 12, Some(0.1));
    bp.log_prior_ratios = vec![fixed(4.0), fixed(2.0), fixed(1.0)];
    let mut lrbp = LRBPDecoder::new(repetition_code(), bp, config);
    lrbp.bp_decoder.initialize_decoder();
    let shown = lrbp.bp_decoder.posterior_ratios().clone();
    let first = lrbp.check_priority_score(&shown, &vec![0, 0], 0);
    let second = lrbp.check_priority_score(&shown, &vec![0, 0], 1);
    assert!(first < second);
    // Half of what the certainties of both variables, which are hyperbolic tangents, leave.
    let left = (1.0 - (2.0f64).tanh() * (1.0f64).tanh()) / 2.0;
    assert!((first - fixed(left) as i128).abs() <= 3);
    let marginal = lrbp.bp_decoder.posterior_ratios().clone();
    lrbp.init_dyn_leg(&marginal, fixed(0.125));
    let result = lrbp.run_dyn_leg(&vec![1, 0], &vec![]);
    assert!(result.success);
    assert_eq!(repetition_code().mul_mod2(&result.decoding), vec![1, 0]);
}
