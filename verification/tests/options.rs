use relay_bp::adaptive_relay::{
    AdaptiveRelayPerturbationMode, AdaptiveRelayUpdateMode, PosteriorMarginalClampMode,
};
use relay_bp::arith::{blend_ratios, bound_value_magnitude, divide, magnitude, mix_ratios, narrow};
use relay_bp::clip_bp::SignUpdateMode;
use relay_bp::disordered_bp::{BiasApplyMode, SamplingMode};
use relay_bp::dual_relay::DualRelayMixMode;
use relay_bp::ensemble_decoder::{EnsembleMode, SelectionStrategy};
use relay_bp::lsd::LsdMethod;
use relay_bp::matrix::SparseBitMatrix;
use relay_bp::options;
use relay_bp::options::{OptionError, SearchModes};
use relay_bp::order::{add_member, sorted_indices};
use relay_bp::rejection_decoder::{ReweightingMode, ReweightingSelection};
use relay_bp::relay::StoppingCriterion;
use relay_bp::slg_mbp::config::{
    AdaptiveMemoryMode, AdaptivePerturbationPriorBaseMode, AdaptivePerturbationSignMode,
    AdaptivePerturbationTarget, AdaptivePerturbationThresholdMode,
    AdaptivePerturbationVariableBaseMode, GammaMode, InitPerturbationMode, InitStrategy,
    PerturbationMethod, SLGMBPDecoderConfig, SelectionMode, WeightedSelectionMode,
};
use relay_bp::table::look_up;
use relay_bp::text::{format_numeric_gap, push_number};

#[test]
fn names_count_in_capital_letters_too() {
    assert!(options::is_named("Mem-BP", "mem-bp"));
    assert!(!options::is_named("mem bp", "mem-bp"));
    assert!(!options::is_named("mem", "mem-bp"));
}

#[test]
fn search_modes_have_names() {
    assert_eq!(
        options::init_perturbation_mode("UNIFORM"),
        InitPerturbationMode::MultiplicativeUniform
    );
    assert_eq!(options::init_perturbation_mode("option_a"), InitPerturbationMode::AdditiveGaussian);
    assert_eq!(options::selection_mode("tournament"), SelectionMode::Tournament);
    assert_eq!(options::selection_mode("weighted"), SelectionMode::Weighted);
    assert_eq!(options::weighted_selection_mode("rank"), WeightedSelectionMode::Rank);
    assert_eq!(options::weighted_selection_mode(""), WeightedSelectionMode::Softmax);
    assert_eq!(options::init_strategy("mem_bp"), InitStrategy::MemBp);
    assert_eq!(options::init_strategy("min-sum"), InitStrategy::MinSum);
    assert_eq!(options::perturbation_method("resample"), PerturbationMethod::Resample);
    assert_eq!(options::perturbation_method("fixed"), PerturbationMethod::Fixed);
    assert_eq!(options::gamma_mode("random_interval"), GammaMode::IntervalRandomPerVariable);
    assert_eq!(options::gamma_mode("fixed"), GammaMode::Fixed);
    assert_eq!(
        options::adaptive_memory_mode("raw_interval"),
        AdaptiveMemoryMode::DirectInterval
    );
    assert_eq!(
        options::adaptive_sign_mode("all_negative"),
        AdaptivePerturbationSignMode::AlwaysNegative
    );
    assert_eq!(options::adaptive_target("marginal"), AdaptivePerturbationTarget::Posterior);
    assert_eq!(options::adaptive_target("both"), AdaptivePerturbationTarget::Both);
    assert_eq!(options::adaptive_target("prior"), AdaptivePerturbationTarget::Prior);
    assert_eq!(
        options::adaptive_prior_base_mode("carry"),
        AdaptivePerturbationPriorBaseMode::PreviousBiased
    );
    assert_eq!(
        options::adaptive_variable_base_mode("first_leg"),
        AdaptivePerturbationVariableBaseMode::FirstLegPosteriorFixed
    );
    assert_eq!(
        options::adaptive_threshold_mode("dynamic"),
        AdaptivePerturbationThresholdMode::GenerationLog10Iter
    );
}

#[test]
fn decoder_modes_have_names() {
    assert_eq!(options::update_mode("per-leg"), AdaptiveRelayUpdateMode::PerLeg);
    assert_eq!(options::perturbation_mode("normal"), AdaptiveRelayPerturbationMode::Gaussian);
    assert_eq!(options::clamp_mode("clamp"), PosteriorMarginalClampMode::AbsThresholdClamp);
    assert_eq!(options::sampling_mode("fixed"), SamplingMode::Fixed);
    assert_eq!(options::sampling_mode("other"), SamplingMode::IntervalRandom);
    assert_eq!(options::bias_mode("random"), SamplingMode::IntervalRandom);
    assert_eq!(options::bias_mode("other"), SamplingMode::Fixed);
    assert_eq!(options::bias_apply_mode("filter"), BiasApplyMode::Filter);
    assert_eq!(options::mix_mode("weighted-fast"), DualRelayMixMode::WeightedFast);
    assert_eq!(options::reweighting_mode("Partial"), ReweightingMode::Partial);
    assert_eq!(options::reweighting_selection("prior"), ReweightingSelection::Prior);
    assert_eq!(options::selection_strategy("MajorityVote"), SelectionStrategy::MajorityVote);
    assert_eq!(options::ensemble_mode("repulsive"), EnsembleMode::Repulsive);
    assert_eq!(options::prior_modify_method("ratio"), options::PriorModifyMethod::Ratio);
    assert_eq!(options::prior_modify_method("lognormal"), options::PriorModifyMethod::LogNormal);
    assert_eq!(options::prior_modify_method(""), options::PriorModifyMethod::LinearSampling);
    assert_eq!(options::perturbation_scale("exponential"), options::PerturbationScale::Exponential);
    assert_eq!(options::lsd_method(1), LsdMethod::LSD_E);
    assert_eq!(options::lsd_method(2), LsdMethod::LSD_CS);
    assert_eq!(options::lsd_method(9), LsdMethod::LSD_0);
    assert_eq!(options::sign_update_mode("NAIVE"), Ok(SignUpdateMode::Naive));
    assert_eq!(options::sign_update_mode("neighbor-only"), Ok(SignUpdateMode::NeighborOnly));
    assert_eq!(options::sign_update_mode("nonsense"), Err(OptionError::UnknownSignMode));
    assert_eq!(options::stopping_criterion("pre_iter", 3), StoppingCriterion::PreIter);
    assert_eq!(
        options::stopping_criterion("nconv", 3),
        StoppingCriterion::NConv { stop_after: 3 }
    );
    assert_eq!(options::stopping_criterion("all", 3), StoppingCriterion::All);
    assert_eq!(
        options::stopping_criterion("All", 3),
        StoppingCriterion::NConv { stop_after: 1 }
    );
    assert_eq!(options::dual_stopping_criterion("ALL", 3), StoppingCriterion::All);
    assert_eq!(
        options::dual_stopping_criterion("x", 3),
        StoppingCriterion::NConv { stop_after: 3 }
    );
}

#[test]
fn options_out_of_range_are_refused() {
    assert_eq!(options::search_options(1001, 0, 0, 1000), Err(OptionError::PositiveSignProbability));
    assert_eq!(options::search_options(500, -1, 0, 1000), Err(OptionError::CarryDampingFactor));
    assert_eq!(options::search_options(500, 1000, -2, 1000), Err(OptionError::CarryThreshold));
    assert_eq!(options::search_options(500, 1000, -1000, 1000), Ok(None));
    assert_eq!(options::search_options(0, 0, 250, 1000), Ok(Some(250)));
    assert_eq!(options::flipping_step(3), Err(OptionError::FlippingStep));
    assert_eq!(options::flipping_step(0), Err(OptionError::FlippingStep));
    assert_eq!(options::flipping_step(4), Ok(4));
    let normal =
        options::repulsive_config(EnsembleMode::Normal, 2, None, None, None, None, 1000);
    assert!(normal.is_none());
    let repulsive =
        options::repulsive_config(EnsembleMode::Repulsive, 2, None, Some(7), None, Some(3), 1000)
            .unwrap();
    assert_eq!(repulsive.repulsive_size, 2);
    assert_eq!(repulsive.repulsive_gamma_dist, (-500, -100));
    assert_eq!(repulsive.abs_llr_threshold, 7);
    assert_eq!(repulsive.pulse_per_leg, 1);
    assert_eq!(repulsive.start_leg, 3);
}

#[test]
fn a_matrix_multiplies_modulo_two() {
    let dense = vec![vec![1, 0, 1, 1], vec![0, 0, 0, 0], vec![1, 1, 0, 1]];
    let m = SparseBitMatrix::from_dense(&dense, 4);
    assert_eq!((m.rows, m.cols), (3, 4));
    assert_eq!(m.row_indices(0), vec![0, 2, 3]);
    assert_eq!(m.row_indices(1), Vec::<usize>::new());
    assert_eq!(m.col_indices(0), vec![0, 2]);
    assert_eq!(m.col_indices(1), vec![2]);
    assert_eq!(m.col_ptr, vec![0, 2, 3, 4, 6]);
    assert_eq!(m.col_idx, vec![0, 2, 2, 0, 0, 2]);
    assert_eq!(m.mul_mod2(&vec![1, 1, 1, 1]), vec![1, 0, 1]);
    // The syndrome of a sum is the sum of the syndromes.
    let a = vec![1, 0, 1, 0];
    let b = vec![0, 1, 1, 1];
    let sum: Vec<u8> = a.iter().zip(b.iter()).map(|(x, y)| x ^ y).collect();
    let added: Vec<u8> =
        m.mul_mod2(&a).iter().zip(m.mul_mod2(&b).iter()).map(|(x, y)| x ^ y).collect();
    assert_eq!(m.mul_mod2(&sum), added);
}

#[test]
fn an_edge_is_found_in_both_orders() {
    let m = SparseBitMatrix::from_dense(&vec![vec![1, 0, 1], vec![1, 1, 0]], 3);
    for e in 0..m.row_idx.len() {
        let f = m.csr_to_csc[e];
        assert_eq!(m.csc_to_csr[f], e);
        let row = (0..m.rows).find(|r| m.row_ptr[*r] <= e && e < m.row_ptr[r + 1]).unwrap();
        let col = (0..m.cols).find(|c| m.col_ptr[*c] <= f && f < m.col_ptr[c + 1]).unwrap();
        assert_eq!(m.col_idx[f], row);
        assert_eq!(m.row_idx[e], col);
    }
    let again = SparseBitMatrix::new(2, 3, vec![0, 2, 4], vec![0, 2, 0, 1]);
    assert_eq!(again.col_idx, m.col_idx);
    assert_eq!(again.csr_to_csc, m.csr_to_csc);
}

#[test]
fn places_are_ordered_by_their_keys() {
    let keys = vec![(3, 0), (1, 5), (3, -1), (1, 5)];
    assert_eq!(sorted_indices(&keys), vec![1, 3, 2, 0]);
    let mut set = vec![2, 5];
    add_member(&mut set, 3);
    add_member(&mut set, 5);
    assert_eq!(set, vec![2, 3, 5]);
}

#[test]
fn numbers_are_written_out() {
    let mut text = String::from("n=");
    push_number(&mut text, 1_203_000);
    assert_eq!(text, "n=1203000");
    assert_eq!(format_numeric_gap(0, 1000), "0");
    assert_eq!(format_numeric_gap(2500, 1000), "2.5");
    assert_eq!(format_numeric_gap(1, 3), "0.333333");
    assert_eq!(format_numeric_gap(2, 3), "0.666667");
    assert_eq!(format_numeric_gap(i128::MAX, 3), "inf");
}

#[test]
fn ratios_are_bounded_and_divided() {
    assert_eq!(bound_value_magnitude(-9, 5), -5);
    assert_eq!(bound_value_magnitude(4, 5), 4);
    assert_eq!(narrow(-(1i128 << 100), i64::MAX), -i64::MAX);
    assert_eq!(divide(-7, 2), -3);
    assert_eq!(magnitude(-3), 3);
    assert_eq!(mix_ratios(30, 10, 1, 4), 3 * 7 + 2);
    assert_eq!(blend_ratios(30, 10, 1, 4), 25);
    assert_eq!(look_up(&vec![5, 6, 7], 10, 19), 6);
    assert_eq!(look_up(&vec![5, 6, 7], 10, 1000), 7);
    assert_eq!(look_up(&vec![], 10, 3), 0);
}

fn search_config() -> SLGMBPDecoderConfig {
    SLGMBPDecoderConfig {
        ensemble_size: 7,
        marginal_carry_damping_factor: 400,
        ..SLGMBPDecoderConfig::with_unit(1000)
    }
}

#[test]
fn a_search_is_configured_by_names() {
    let modes = SearchModes {
        init_perturbation_mode: "uniform",
        selection_mode: "Tournament",
        weighted_selection_mode: "rank",
        init_strategy: "",
        perturbation_method: "",
        gamma_mode: "",
        adaptive_memory_mode: "",
        adaptive_perturbation_sign_mode: "",
        adaptive_perturbation_target: "",
        adaptive_perturbation_prior_base_mode: "",
        adaptive_perturbation_variable_base_mode: "",
        adaptive_perturbation_llr_threshold_mode: "",
    };
    let config =
        options::configure_search(search_config(), &modes, 500, -1000, 1000).unwrap();
    assert_eq!(config.ensemble_size, 7);
    assert_eq!(config.init_perturbation_mode, InitPerturbationMode::MultiplicativeUniform);
    assert_eq!(config.selection_mode, SelectionMode::Tournament);
    assert_eq!(config.weighted_selection_mode, WeightedSelectionMode::Rank);
    assert_eq!(config.marginal_carry_llr_abs_threshold, None);
    let config = options::configure_search(search_config(), &modes, 0, 30, 1000).unwrap();
    assert_eq!(config.marginal_carry_llr_abs_threshold, Some(30));
    for (positive, carry, error) in [
        (1001, 0, OptionError::PositiveSignProbability),
        (-1, -5, OptionError::PositiveSignProbability),
        (500, -5, OptionError::CarryThreshold),
    ] {
        let refused = options::configure_search(search_config(), &modes, positive, carry, 1000);
        assert_eq!(refused.err(), Some(error));
    }
    let damped = SLGMBPDecoderConfig { marginal_carry_damping_factor: 1001, ..search_config() };
    let refused = options::configure_search(damped, &modes, 500, 0, 1000);
    assert_eq!(refused.err(), Some(OptionError::CarryDampingFactor));
}
