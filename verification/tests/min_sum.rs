use relay_bp::decoder::{BPExtraResult, Decoder, DecoderRunner};
use relay_bp::matrix::SparseBitMatrix;
use relay_bp::min_sum::{DrawnMinSumDecoder, MinSumBPDecoder, MinSumDecoderConfig};
use relay_bp::step1::{count_bit_changes, sorted_positive, Step1Options};

const ONE: i64 = 1_000_000;

fn fixed(x: f64) -> i64 {
    (x * ONE as f64).round() as i64
}

fn prior(p: f64) -> i64 {
    fixed(((1.0 - p) / p).ln())
}

fn repetition_code() -> SparseBitMatrix {
    SparseBitMatrix::from_dense(&vec![vec![1, 1, 0], vec![0, 1, 1]], 3)
}

fn repetition_config(max_iter: usize) -> MinSumDecoderConfig {
    MinSumDecoderConfig {
        log_prior_ratios: vec![prior(0.003); 3],
        max_iter,
        data_scale_value: Some(ONE),
        ..Default::default()
    }
}

fn step1_options(k_default: usize, t_warmup: usize, theta_num: u32, n_min: usize) -> Step1Options {
    Step1Options {
        k_default,
        t_warmup,
        theta_num,
        theta_den: 10,
        n_min_default: n_min,
        low_threshold_0: fixed(0.1),
        low_threshold_1: fixed(0.5),
        endpoint_k: 20,
        collect_sign_trajectory: false,
        snapshot_times: vec![],
    }
}

#[test]
fn decode_detailed_repetition_code() {
    let iterations = 10;
    let mut decoder = MinSumBPDecoder::new(repetition_code(), repetition_config(iterations));
    let cases = vec![
        (vec![0, 0, 0], vec![0, 0]),
        (vec![1, 0, 0], vec![1, 0]),
        (vec![0, 1, 0], vec![1, 1]),
        (vec![0, 0, 1], vec![0, 1]),
    ];
    for (error, detectors) in cases {
        let result = decoder.decode_detailed(&detectors);
        assert_eq!(result.decoding, error);
        assert_eq!(result.decoded_detectors, detectors);
        assert_eq!(result.max_iter, iterations);
        assert!(result.success);
    }
}

#[test]
fn decode_detailed_repetition_code_int() {
    let iterations = 10;
    let bits = 7;
    let scale = 4.0;
    let ratio = (((1.0f64 - 0.003) / 0.003).ln() * scale) as i64;
    assert_eq!(ratio, 23);
    let config = MinSumDecoderConfig {
        log_prior_ratios: vec![ratio; 3],
        max_iter: iterations,
        max_data_value: Some((1 << bits) - 1),
        data_scale_value: Some(4),
        whole_units: true,
        ..Default::default()
    };
    let mut decoder = MinSumBPDecoder::new(repetition_code(), config);
    let cases = vec![
        (vec![0, 0, 0], vec![0, 0]),
        (vec![1, 0, 0], vec![1, 0]),
        (vec![0, 1, 0], vec![1, 1]),
        (vec![0, 0, 1], vec![0, 1]),
    ];
    for (error, detectors) in cases {
        let result = decoder.decode_detailed(&detectors);
        assert_eq!(result.decoding, error);
        assert_eq!(result.decoded_detectors, detectors);
        assert_eq!(result.max_iter, iterations);
        assert!(result.success);
    }
}

#[test]
fn decode_detailed_step1_metrics_matches_decode_detailed() {
    let mut decoder = MinSumBPDecoder::new(repetition_code(), repetition_config(10));
    let detectors = vec![0, 0];

    let expected = decoder.clone().decode_detailed(&detectors);
    let (actual, metrics) =
        decoder.decode_detailed_step1_metrics(&detectors, &step1_options(20, 0, 4, 3));

    assert_eq!(expected.success, actual.success);
    assert_eq!(expected.iterations, actual.iterations);
    assert_eq!(expected.decoding, actual.decoding);
    assert_eq!(expected.decoded_detectors, actual.decoded_detectors);

    let iters = actual.iterations;
    assert_eq!(metrics.w_sigma.len(), iters);
    assert_eq!(metrics.delta_hd.len(), iters);
    assert_eq!(metrics.m_history.len(), iters + 1);
    assert_eq!(metrics.delta_m_squares.len(), iters);
    assert_eq!(metrics.m_squares.len(), iters);
    assert_eq!(metrics.m_magnitudes.len(), iters);
    assert_eq!(metrics.low_0_count.len(), iters);
    assert_eq!(metrics.low_1_count.len(), iters);
    assert_eq!(metrics.f_endpoint.len(), iters);
    assert_eq!(metrics.v_osc.len(), iters);
    assert!(metrics.sign_trajectory_packed.is_none());
    assert!(metrics.abs_m_snapshots.is_none());
    assert!(metrics.snapshot_times.is_empty());
}

#[test]
fn decode_detailed_step1_metrics_respects_warmup_window_start() {
    let mut decoder = MinSumBPDecoder::new(repetition_code(), repetition_config(25));
    let k_default = 3usize;
    let t_warmup = 4usize;
    let first_possible_t = t_warmup + k_default;

    let (_actual, metrics) = decoder
        .decode_detailed_step1_metrics(&vec![1, 0], &step1_options(k_default, t_warmup, 0, 0));

    let prefix_len = metrics.v_osc.len().min(first_possible_t.saturating_sub(1));
    for idx in 0..prefix_len {
        assert_eq!(
            metrics.v_osc[idx],
            0,
            "v_osc must be zero before warmup+window; t={} threshold={}",
            idx + 1,
            first_possible_t,
        );
    }
    if let Some(t_stag) = metrics.t_stag {
        assert!(
            t_stag >= first_possible_t,
            "t_stag={} should be >= warmup+window={}",
            t_stag,
            first_possible_t,
        );
    }
}

fn dropping_decoder(threshold: f64) -> MinSumBPDecoder {
    let config = MinSumDecoderConfig {
        log_prior_ratios: vec![prior(0.1), prior(0.45), prior(0.45)],
        data_scale_value: Some(ONE),
        enable_variable_message_drop: true,
        drop_llr_threshold: fixed(threshold),
        ..Default::default()
    };
    let mut decoder = MinSumBPDecoder::new(repetition_code(), config);
    decoder.initialize_check_to_variable();
    decoder.run_variable_to_check_update(&vec![true, true, true]);
    decoder
}

#[test]
fn variable_message_drop_zeros_selected_variable_edges() {
    // Messages to checks are kept in row order: edges (0, 0), (0, 1), (1, 1), (1, 2).
    let decoder = dropping_decoder(1.0);
    assert_eq!(decoder.variable_to_check[0], 0);
    assert_ne!(decoder.variable_to_check[1], 0);
    assert_ne!(decoder.variable_to_check[2], 0);
}

#[test]
fn variable_message_drop_respects_threshold() {
    let decoder = dropping_decoder(3.0);
    assert_ne!(decoder.variable_to_check[0], 0);
}

#[test]
fn messages_are_kept_without_a_coin() {
    let config = MinSumDecoderConfig {
        log_prior_ratios: vec![prior(0.1), prior(0.45), prior(0.45)],
        data_scale_value: Some(ONE),
        enable_variable_message_drop: true,
        drop_llr_threshold: fixed(1.0),
        ..Default::default()
    };
    let mut decoder = MinSumBPDecoder::new(repetition_code(), config);
    decoder.initialize_check_to_variable();
    decoder.run_variable_to_check_update(&vec![false, false, false]);
    assert_eq!(decoder.variable_to_check[0], prior(0.1));
}

fn small_decoder() -> MinSumBPDecoder {
    // One check of three variables, one check of the last two.
    let matrix = SparseBitMatrix::from_dense(&vec![vec![1, 1, 1], vec![0, 1, 1]], 3);
    let config = MinSumDecoderConfig {
        log_prior_ratios: vec![30, 20, 70],
        max_iter: 3,
        ..Default::default()
    };
    MinSumBPDecoder::new(matrix, config)
}

#[test]
fn one_iteration_takes_minima_and_sums() {
    let mut decoder = small_decoder();
    decoder.initialize_decoder();
    decoder.run_check_to_variable_update(&vec![1, 0]);
    // Columns: variable 0 hears check 0; variables 1 and 2 hear checks 0 and 1.
    assert_eq!(*decoder.check_to_variable_data(), vec![-20, -30, 70, -20, 20]);
    assert_eq!(*decoder.check_to_variable_indices(), vec![0, 0, 1, 0, 1]);
    decoder.run_variable_to_check_update(&vec![]);
    assert_eq!(*decoder.posterior_ratios(), vec![10, 60, 70]);
    assert_eq!(decoder.posterior_ratio(1), 60);
    // Rows: check 0 hears all three; check 1 hears the last two.
    assert_eq!(decoder.variable_to_check, vec![30, 90, 90, -10, 50]);
    assert_eq!(decoder.sum_check_to_variable_by_variable(), vec![-20, 40, 0]);
}

#[test]
fn damping_scales_check_messages() {
    let mut decoder = small_decoder();
    decoder.config.alpha = Some(3);
    decoder.config.data_scale_value = Some(4);
    decoder.initialize_decoder();
    decoder.run_check_to_variable_update(&vec![0, 0]);
    assert_eq!(*decoder.check_to_variable_data(), vec![15, 22, 52, 15, 15]);
    decoder.set_variable_alphas(Some(vec![4, 8, 2]));
    decoder.run_check_to_variable_update(&vec![0, 0]);
    assert_eq!(*decoder.check_to_variable_data(), vec![20, 60, 140, 10, 10]);
    decoder.clear_variable_alphas();
    decoder.run_check_to_variable_update_for_check(&vec![0, 0], 1);
    assert_eq!(*decoder.check_to_variable_data(), vec![20, 60, 52, 10, 15]);
}

#[test]
fn scheduled_damping_follows_the_iteration() {
    let mut decoder = small_decoder();
    decoder.config.alpha = Some(0);
    decoder.config.alpha_schedule = vec![2, 3];
    decoder.config.data_scale_value = Some(4);
    decoder.initialize_decoder();
    decoder.run_check_to_variable_update(&vec![0, 0]);
    assert_eq!(decoder.check_to_variable_data()[0], 10);
    decoder.current_iteration = 1;
    decoder.run_check_to_variable_update(&vec![0, 0]);
    assert_eq!(decoder.check_to_variable_data()[0], 15);
    decoder.current_iteration = 7;
    decoder.run_check_to_variable_update(&vec![0, 0]);
    assert_eq!(decoder.check_to_variable_data()[0], 15);
}

#[test]
fn memory_mixes_prior_and_posterior() {
    let mut config = small_decoder().config;
    config.data_scale_value = Some(4);
    assert_eq!(config.mix_by_memory(30, 10, 1), (30 * 3 + 10) / 4);
    // Whole units first: 30 is seven units of four, 10 is two.
    config.whole_units = true;
    assert_eq!(config.mix_by_memory(30, 10, 1), 3 * 7 + 2);
}

#[test]
fn ratios_stay_in_range() {
    let mut decoder = small_decoder();
    decoder.config.max_data_value = Some(50);
    decoder.initialize_decoder();
    decoder.run_iteration(&vec![1, 0], &vec![]);
    assert!(decoder.posterior_ratios().iter().all(|r| r.abs() <= 50));
    assert!(decoder.variable_to_check.iter().all(|r| r.abs() <= 50));
    let mut config = decoder.config.clone();
    config.set_fixed(7);
    assert_eq!(config.max_data_value, Some(64));
    config.set_max_iter(9);
    assert_eq!(config.max_iter, 9);
}

#[test]
fn an_infinite_prior_stays_infinite() {
    let config = MinSumDecoderConfig {
        log_prior_ratios: vec![i64::MAX, 20, 70],
        max_iter: 4,
        gamma0: Some(1),
        data_scale_value: Some(4),
        ..Default::default()
    };
    let mut decoder = MinSumBPDecoder::new(repetition_code(), config);
    let result = decoder.decode_detailed(&vec![1, 0]);
    assert_eq!(result.decoding[0], 0);
    assert_eq!(decoder.get_decoding_quality(&vec![0, 1, 1]), 90);
    assert_eq!(decoder.get_decoding_quality(&vec![1, 0, 0]), 0);
}

#[test]
fn a_result_is_consistent() {
    // An error on the second variable cannot be told from none on the others and one on it.
    let matrix = SparseBitMatrix::from_dense(&vec![vec![1, 1], vec![1, 1]], 2);
    let config = MinSumDecoderConfig {
        log_prior_ratios: vec![20, 20],
        max_iter: 6,
        ..Default::default()
    };
    let mut decoder = MinSumBPDecoder::new(matrix.clone(), config);
    let good = decoder.decode_detailed(&vec![0, 0]);
    assert!(good.success);
    assert_eq!(good.iterations, 1);
    assert_eq!(good.decoding_quality, 0);
    // No error has this syndrome, so decoding gives up after the last iteration.
    let bad = decoder.decode_detailed(&vec![1, 0]);
    assert!(!bad.success);
    assert_eq!(bad.iterations, 6);
    assert_eq!(bad.max_iter, 6);
    assert_eq!(bad.decoded_detectors, matrix.mul_mod2(&bad.decoding));
    for (bit, ratio) in bad.decoding.iter().zip(bad.posterior_ratios.iter()) {
        assert_eq!(*bit == 1, *ratio <= 0);
    }
    assert!(matches!(bad.extra, BPExtraResult::NoExtra));
}

#[test]
fn without_iterations_only_no_error_is_explained() {
    let mut decoder = MinSumBPDecoder::new(repetition_code(), repetition_config(0));
    let quiet = decoder.decode_detailed(&vec![0, 0]);
    assert!(quiet.success);
    assert_eq!(quiet.iterations, 0);
    assert_eq!(quiet.decoded_detectors, vec![0, 0]);
    let fired = decoder.decode_detailed(&vec![1, 0]);
    assert!(!fired.success);
    assert_eq!(fired.decoding, vec![0, 0, 0]);
    assert_eq!(fired.logical_gap, None);
}

#[test]
fn earlier_decodings_are_forgotten() {
    for gamma0 in [None, Some(fixed(0.125))] {
        let config = MinSumDecoderConfig { gamma0, ..repetition_config(10) };
        let fresh = MinSumBPDecoder::new(repetition_code(), config);
        let mut used = fresh.clone();
        used.decode_batch(&vec![vec![1, 1], vec![0, 1]]);
        let expected = fresh.clone().decode_detailed(&vec![1, 0]);
        let result = used.decode_detailed(&vec![1, 0]);
        assert_eq!(result.decoding, expected.decoding);
        assert_eq!(result.posterior_ratios, expected.posterior_ratios);
        assert_eq!(result.iterations, expected.iterations);
        assert!(used.can_decode(usize::MAX));
    }
}

#[test]
fn drawn_coins_drop_messages() {
    let config = MinSumDecoderConfig {
        enable_variable_message_drop: true,
        drop_llr_threshold: 0,
        ..repetition_config(4)
    };
    let bp_decoder = MinSumBPDecoder::new(repetition_code(), config);
    let mut kept = DrawnMinSumDecoder { bp_decoder: bp_decoder.clone(), supply: vec![vec![]] };
    assert!(kept.decode_detailed(&vec![1, 1]).success);
    // Nothing is ever sent to the checks.
    let coins = vec![vec![true; 3]; 4];
    let mut dropped =
        DrawnMinSumDecoder { bp_decoder: bp_decoder.clone(), supply: vec![coins.clone()] };
    assert!(dropped.can_decode(1) && !dropped.can_decode(2));
    let result = dropped.decode_detailed(&vec![1, 1]);
    let mut observed = bp_decoder.clone();
    let (metered, metrics) = observed.decode_detailed_step1_metrics_with_coins(
        &vec![1, 1],
        &coins,
        &step1_options(2, 0, 4, 1),
    );
    assert_eq!(metered.decoding, result.decoding);
    assert_eq!(metered.success, result.success);
    assert_eq!(metered.iterations, result.iterations);
    assert_eq!(metered.posterior_ratios, result.posterior_ratios);
    assert_eq!(metrics.m_history[metered.iterations], result.posterior_ratios);
    let mut plain = bp_decoder;
    let (plain, _) =
        plain.decode_detailed_step1_metrics(&vec![1, 1], &step1_options(2, 0, 4, 1));
    assert!(plain.success);
    assert_ne!(plain.posterior_ratios, metered.posterior_ratios);
}

#[test]
fn a_rebuilt_posterior_is_sent_to_the_checks() {
    let mut decoder = small_decoder();
    decoder.initialize_decoder();
    decoder.run_check_to_variable_update(&vec![1, 0]);
    decoder.set_posterior_and_rebuild_variable_to_check(vec![5, -6, 7]);
    assert_eq!(*decoder.posterior_ratios(), vec![5, -6, 7]);
    assert_eq!(decoder.variable_to_check, vec![25, 24, 27, -76, -13]);
    assert_eq!(*decoder.current_decoding(), vec![0, 1, 0]);
}

#[test]
fn one_variable_can_be_sent_alone() {
    let mut decoder = small_decoder();
    decoder.initialize_decoder();
    decoder.run_check_to_variable_update(&vec![1, 0]);
    let before = decoder.variable_to_check.clone();
    decoder.run_variable_to_check_update_for_variable(&vec![], 1);
    assert_eq!(decoder.variable_to_check, vec![before[0], 90, before[2], -10, before[4]]);
    assert_eq!(*decoder.posterior_ratios(), vec![0, 60, 0]);
    decoder.run_variable_to_check_update_for_variable(&vec![], 17);
    assert_eq!(*decoder.posterior_ratios(), vec![0, 60, 0]);
    assert_eq!(decoder.check_neighbors(1), vec![0, 1]);
    assert_eq!(decoder.variable_neighbors(1), vec![1, 2]);
    assert_eq!(decoder.check_neighbors(17), Vec::<usize>::new());
}

#[test]
fn the_predicted_posterior_adds_memory_and_messages() {
    let mut decoder = small_decoder();
    decoder.config.data_scale_value = Some(4);
    decoder.initialize_decoder();
    decoder.run_check_to_variable_update(&vec![1, 0]);
    let plain = decoder.predict_posterior_from_previous_and_memory(
        &vec![10, 10, 10],
        &vec![1, 0, 4],
        &None,
        0,
    );
    assert_eq!(plain, vec![(30 * 3 + 10) / 4 - 20, 20 + 40, 10]);
    let earlier = decoder.predict_posterior_from_previous_and_memory(
        &vec![10, 10, 10],
        &vec![1, 0, 4],
        &Some(vec![8, 8, 8]),
        2,
    );
    assert_eq!(earlier, vec![(30 * 3 + 10) / 4 - 20 + 4, 20 + 40 + 4, 10 + 4]);
}

#[test]
fn decoders_run_batches_in_order() {
    let mut decoder = MinSumBPDecoder::new(repetition_code(), repetition_config(10));
    let batch = vec![vec![1, 0], vec![1, 1], vec![0, 0]];
    let estimates = decoder.decode_batch(&batch);
    assert_eq!(estimates, vec![vec![1, 0, 0], vec![0, 1, 0], vec![0, 0, 0]]);
    let detailed = decoder.decode_detailed_batch(&batch);
    assert_eq!(detailed.len(), 3);
    assert!(detailed.iter().all(|r| r.success));
    assert_eq!(decoder.get_detectors(&vec![0, 0, 1]), vec![0, 1]);
    assert_eq!(Decoder::log_prior_ratios(&decoder), vec![prior(0.003); 3]);
}

#[test]
fn the_metrics_follow_the_posteriors() {
    let matrix = SparseBitMatrix::from_dense(&vec![vec![1, 1], vec![1, 1]], 2);
    let config = MinSumDecoderConfig {
        log_prior_ratios: vec![fixed(2.0), fixed(2.0)],
        max_iter: 6,
        data_scale_value: Some(ONE),
        ..Default::default()
    };
    let mut decoder = MinSumBPDecoder::new(matrix, config);
    let options = Step1Options {
        k_default: 2,
        t_warmup: 1,
        theta_num: 4,
        theta_den: 10,
        n_min_default: 1,
        low_threshold_0: fixed(2.5),
        low_threshold_1: fixed(0.5),
        endpoint_k: 1,
        collect_sign_trajectory: true,
        snapshot_times: vec![4, 0, 2, 2, 9],
    };
    let (result, metrics) = decoder.decode_detailed_step1_metrics(&vec![1, 0], &options);
    assert_eq!(metrics.variable_count, 2);
    assert_eq!(result.iterations, 6);
    for t in 1..=6 {
        let now = &metrics.m_history[t];
        let low = now.iter().filter(|m| m.abs() < fixed(2.5)).count();
        assert_eq!(metrics.low_0_count[t - 1], low);
        let moved: u128 = now
            .iter()
            .zip(&metrics.m_history[t - 1])
            .map(|(a, b)| ((a - b) as i128 * (a - b) as i128) as u128)
            .sum();
        assert_eq!(metrics.delta_m_squares[t - 1], moved);
        let size: u128 = now.iter().map(|m| (*m as i128 * *m as i128) as u128).sum();
        assert_eq!(metrics.m_squares[t - 1], size);
        let magnitude: u128 = now.iter().map(|m| m.unsigned_abs() as u128).sum();
        assert_eq!(metrics.m_magnitudes[t - 1], magnitude);
        let mismatched = metrics.w_sigma[t - 1];
        assert!(mismatched > 0);
    }
    assert_eq!(metrics.sign_bytes_per_iter, 1);
    let signs = metrics.sign_trajectory_packed.unwrap();
    assert_eq!(signs.len(), 6);
    for t in 1..=6 {
        let now = &metrics.m_history[t];
        let mut byte = 0u8;
        for (i, m) in now.iter().enumerate() {
            if *m < 0 {
                byte |= 0x80 >> i;
            }
        }
        assert_eq!(signs[t - 1], vec![byte]);
    }
    assert_eq!(metrics.snapshot_times, vec![2, 4, 9]);
    let snapshots = metrics.abs_m_snapshots.unwrap();
    assert_eq!(snapshots.len(), 3);
    let magnitudes =
        |t: usize| -> Vec<i64> { metrics.m_history[t].iter().map(|m: &i64| m.abs()).collect() };
    assert_eq!(snapshots[0], magnitudes(2));
    assert_eq!(snapshots[1], magnitudes(4));
    assert_eq!(snapshots[2], magnitudes(6));
    if let Some(t) = metrics.t_stag {
        assert!(t >= 3);
    }
}

#[test]
fn bit_changes_are_counted() {
    assert_eq!(count_bit_changes(&vec![0, 1, 1, 0], &vec![1, 1, 0, 0]), 2);
    assert_eq!(sorted_positive(&vec![5, 0, 3, 5]), vec![3, 5]);
}
