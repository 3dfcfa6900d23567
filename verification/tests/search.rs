use relay_bp::decoder::{BPExtraResult, Decoder};
use relay_bp::matrix::SparseBitMatrix;
use relay_bp::min_sum::MinSumDecoderConfig;
use relay_bp::slg_mbp::adapt::{AdaptiveDraws, LegDraws, MemberDraws, SLGMBPDecoder};
use relay_bp::slg_mbp::config::{
    FinalSolutionSelection, GammaMode, InitPerturbationMode, InitStrategy, SLGMBPDecoderConfig,
    SelectionMode, SolutionCollectionMode, WeightedSelectionMode,
};
use relay_bp::slg_mbp::decode::DrawnSearchDecoder;
use relay_bp::slg_mbp::ga_ops::{
    build_next_generation, rank_members, select_parent, ChildDraws, ParentDraw, PopulationMember,
};
use relay_bp::slg_mbp::init_population::{
    initialize_llr_population, sample_perturbed_llr, PerturbationState,
};
use relay_bp::slg_mbp::search::{GenerationDraws, SearchDraws};
use relay_bp::slg_mbp::solutions::CollectedSolution;
use relay_bp::slg_mbp::trace::SLGMBPRuntimeTrace;

const ONE: i64 = 1_000;

fn repetition_code() -> SparseBitMatrix {
    SparseBitMatrix::from_dense(&vec![vec![1, 1, 0], vec![0, 1, 1]], 3)
}

/// Two equal rows: no error has a syndrome that tells them apart.
fn inconsistent_code() -> SparseBitMatrix {
    SparseBitMatrix::from_dense(&vec![vec![1, 1, 0], vec![1, 1, 0]], 3)
}

fn search(code: SparseBitMatrix, config: SLGMBPDecoderConfig) -> SLGMBPDecoder {
    let min_sum_config = MinSumDecoderConfig {
        log_prior_ratios: vec![4000, 4100, 4200],
        max_iter: 10,
        data_scale_value: Some(ONE),
        ..Default::default()
    };
    SLGMBPDecoder::new(code, min_sum_config, config)
}

fn small() -> SLGMBPDecoderConfig {
    SLGMBPDecoderConfig {
        ensemble_size: 2,
        t_ms: 6,
        t_mem: 5,
        g_max: 3,
        elite_count: 1,
        ..SLGMBPDecoderConfig::with_unit(ONE)
    }
}

fn no_bias() -> AdaptiveDraws {
    AdaptiveDraws { factors: vec![], log_factors: vec![], positive: vec![] }
}

fn leg() -> LegDraws {
    LegDraws { marginal: no_bias(), gammas: vec![100; 3], gamma_flips: vec![], coins: vec![] }
}

fn parent(ticket: u64) -> ParentDraw {
    ParentDraw { entrants: vec![0, 1, 1], ticket }
}

fn generation(legs: usize) -> GenerationDraws {
    let member = MemberDraws {
        perturbation: vec![0; 3],
        prior: no_bias(),
        signs: vec![],
        adjacent_gammas: vec![100; 3],
        adjacent_waits: vec![0; 3],
        legs: vec![leg(); legs],
    };
    GenerationDraws {
        children: vec![
            ChildDraws {
                first: parent(0),
                second: parent(1),
                from_first: vec![true, false, true],
                mutates: vec![false; 3],
                state_from_first: true,
            };
            2
        ],
        members: vec![member; 2],
    }
}

fn draws(generations: usize, legs: usize) -> SearchDraws {
    SearchDraws {
        population: vec![vec![0; 3], vec![50, -50, 50]],
        generations: vec![generation(legs); generations],
    }
}

fn trace(extra: BPExtraResult) -> SLGMBPRuntimeTrace {
    match extra {
        BPExtraResult::SLGMBPTrace(t) => t,
        _ => panic!("the search is recorded"),
    }
}

#[test]
fn a_search_ends_in_its_first_phase() {
    let decoder = search(repetition_code(), small());
    let result = decoder.decode_detailed(&vec![1, 1], &draws(3, 1));
    assert!(result.success);
    assert_eq!(result.decoding, vec![0, 1, 0]);
    assert_eq!(result.max_iter, 6 + 3 * 5);
    let t = trace(result.extra);
    assert!(t.phase1_converged);
    assert_eq!(t.generation_count, 0);
    assert_eq!(t.accepted_solution_decodings, vec![vec![0, 1, 0]]);
    assert_eq!(t.accepted_solution_weights, vec![4100]);
    assert!(t.detailed_dynamics.is_none());
}

#[test]
fn a_search_runs_through_its_generations() {
    let mut drawn = DrawnSearchDecoder {
        decoder: search(inconsistent_code(), small()),
        supply: vec![draws(3, 1)],
    };
    let result = drawn.decode_detailed(&vec![1, 0]);
    assert!(!drawn.can_decode(1));
    assert!(!result.success);
    // The members of a layer count with the longest of them.
    assert_eq!(result.iterations, 6 + 3 * 5);
    let t = trace(result.extra);
    assert!(!t.phase1_converged);
    assert_eq!(t.generation_count, 3);
    assert_eq!(t.generation_best_fitness.len(), 3);
    // One for each member of each generation.
    assert_eq!(t.residual_weight_history, vec![1; 3 * 2]);
    assert!(t.accepted_solution_decodings.is_empty());
}

#[test]
fn a_search_can_be_observed() {
    let decoder = search(inconsistent_code(), small());
    let result = decoder.decode_detailed_dynamics(&vec![1, 0], &draws(3, 1));
    let t = trace(result.extra);
    let dynamics = t.detailed_dynamics.unwrap();
    assert_eq!(dynamics.observed_syndrome_weight, 1);
    // Two members of the first phase and of each of three generations.
    assert_eq!(dynamics.entries.len(), 2 + 3 * 2);
    assert!(dynamics.entries.iter().all(|e| !e.converged));
    assert!(dynamics.entries.iter().all(|e| e.residual_syndrome_count == 1));
    assert_eq!(dynamics.entries[0].residual_adjacent_variable_indices, vec![0, 1]);
    assert_eq!(dynamics.entries[0].residual_adjacent_variable_count, 2);
}

#[test]
fn observing_changes_nothing() {
    for (code, detectors) in [(repetition_code(), vec![1, 1]), (inconsistent_code(), vec![1, 0])] {
        let decoder = search(code, small());
        let plain = decoder.decode_detailed(&detectors, &draws(3, 1));
        let observed = decoder.decode_detailed_dynamics(&detectors, &draws(3, 1));
        assert_eq!(plain.decoding, observed.decoding);
        assert_eq!(plain.posterior_ratios, observed.posterior_ratios);
        assert_eq!(plain.success, observed.success);
        assert_eq!(plain.iterations, observed.iterations);
        assert_eq!(plain.decoding_quality, observed.decoding_quality);
        let (plain, observed) = (trace(plain.extra), trace(observed.extra));
        assert_eq!(plain.gamma_history, observed.gamma_history);
        assert_eq!(plain.residual_weight_history, observed.residual_weight_history);
        assert_eq!(plain.accepted_solution_decodings, observed.accepted_solution_decodings);
    }
}

#[test]
fn rounds_of_biased_relay_replace_generations() {
    let config = SLGMBPDecoderConfig {
        biased_relay_mode: true,
        biased_relay_t_0: 4,
        biased_relay_r_relay: 2,
        biased_relay_r_relay_iter: 3,
        biased_relay_maximum_round: 2,
        gamma_mode: GammaMode::IntervalRandomPerVariable,
        init_strategy: InitStrategy::MemBp,
        ..small()
    };
    let decoder = search(inconsistent_code(), config.clone());
    let result = decoder.decode_detailed(&vec![1, 0], &draws(3, 3));
    assert!(!result.success);
    assert_eq!(result.max_iter, 2 * (4 + 2 * 3));
    let easy = search(repetition_code(), config);
    let result = easy.decode_detailed(&vec![0, 1], &draws(3, 3));
    assert!(result.success);
    assert_eq!(result.decoding, vec![0, 0, 1]);
}

fn solution(discovery_iteration: usize, llr_cost: i128) -> CollectedSolution {
    CollectedSolution {
        discovery_iteration,
        llr_cost,
        decoding: vec![1, 0, 0],
        posterior: vec![-1, 2, 3],
    }
}

#[test]
fn the_first_solutions_count_and_one_is_taken() {
    let collected = vec![solution(9, 50), solution(3, 70), solution(5, 60)];
    let config = SLGMBPDecoderConfig {
        solution_collection_mode: SolutionCollectionMode::PostSelection,
        n_solutions: 2,
        final_solution_selection: FinalSolutionSelection::MinWeight,
        ..small()
    };
    let decoder = search(repetition_code(), config.clone());
    assert_eq!(decoder.target_solution_count(), 2);
    assert!(decoder.use_post_selection());
    assert!(!decoder.should_stop_after_success_count(1));
    assert!(decoder.should_stop_after_success_count(2));
    let accepted = decoder.accepted_solutions(&collected);
    let found: Vec<usize> = accepted.iter().map(|s| s.discovery_iteration).collect();
    assert_eq!(found, vec![3, 5]);
    assert_eq!(decoder.choose_final_solution(&collected).unwrap().llr_cost, 60);
    let fastest = search(
        repetition_code(),
        SLGMBPDecoderConfig {
            final_solution_selection: FinalSolutionSelection::Fastest,
            ..config
        },
    );
    assert_eq!(fastest.choose_final_solution(&collected).unwrap().llr_cost, 70);
    assert!(fastest.choose_final_solution(&vec![]).is_none());
    assert_eq!(decoder.estimated_error_weight(&vec![1, 0, 1], &vec![4, 5, 6]), 10);
}

fn member(posterior: Vec<i64>, fitness: i128) -> PopulationMember {
    PopulationMember {
        posterior,
        fitness,
        perturbation_state: PerturbationState::Unperturbed,
        residual_adjacent_variable_indices: vec![],
        adaptive_prior: None,
        adaptive_target_mask: None,
    }
}

#[test]
fn parents_are_chosen_by_score() {
    let population = vec![member(vec![1], 10), member(vec![2], 30), member(vec![3], 20)];
    let ranking = rank_members(&population);
    assert_eq!(ranking.len(), 3);
    let best = ranking[0];
    let tournament = SLGMBPDecoderConfig {
        selection_mode: SelectionMode::Tournament,
        tournament_size: 3,
        ..small()
    };
    let draw = ParentDraw { entrants: vec![0, 1, 2], ticket: 0 };
    assert_eq!(select_parent(&population, &tournament, &draw), best);
    let rank = SLGMBPDecoderConfig {
        selection_mode: SelectionMode::Weighted,
        weighted_selection_mode: WeightedSelectionMode::Rank,
        ..small()
    };
    // Half of the tickets are for the best, a third for the second, the rest for the last.
    let chosen: Vec<usize> = (0..6)
        .map(|k| ParentDraw { entrants: vec![], ticket: (u64::MAX / 6) * k + u64::MAX / 12 })
        .map(|draw| select_parent(&population, &rank, &draw))
        .collect();
    assert_eq!(chosen.iter().filter(|c| **c == ranking[0]).count(), 3);
    assert_eq!(chosen.iter().filter(|c| **c == ranking[1]).count(), 2);
    assert_eq!(chosen.iter().filter(|c| **c == ranking[2]).count(), 1);
}

#[test]
fn a_generation_keeps_its_elite() {
    let population = vec![
        member(vec![100, -50, 7], 10),
        member(vec![-900, 50, -7], 30),
        member(vec![5, 5, 5], 20),
    ];
    let ranking = rank_members(&population);
    let config = SLGMBPDecoderConfig {
        elite_count: 1,
        selection_mode: SelectionMode::Tournament,
        tournament_size: 2,
        mutation_llr_abs_threshold: 10,
        ..small()
    };
    let child = ChildDraws {
        first: ParentDraw { entrants: vec![0, 0], ticket: 0 },
        second: ParentDraw { entrants: vec![1, 1], ticket: 0 },
        from_first: vec![true, false, true],
        mutates: vec![true, true, true],
        state_from_first: true,
    };
    let next = build_next_generation(&population, &config, &vec![child; 3]);
    assert_eq!(next.len(), 3);
    assert_eq!(next[0].posterior, population[ranking[0]].posterior);
    // The first and the last from the first parent, the last one weak and turned.
    assert_eq!(next[1].posterior, vec![100, 50, -7]);
}

#[test]
fn a_population_starts_from_perturbed_priors() {
    let prior = vec![1000, -2000, 500];
    let shifted = sample_perturbed_llr(
        &prior,
        InitPerturbationMode::AdditiveGaussian,
        &vec![1, 2, 3],
        ONE,
    );
    assert_eq!(shifted, vec![1001, -1998, 503]);
    let scaled = sample_perturbed_llr(
        &prior,
        InitPerturbationMode::MultiplicativeUniform,
        &vec![500, 2000, -1000],
        ONE,
    );
    assert_eq!(scaled, vec![500, -4000, -500]);
    let population = initialize_llr_population(
        &prior,
        InitPerturbationMode::AdditiveGaussian,
        &vec![vec![0, 0, 0], vec![5, 5, 5]],
        ONE,
    );
    assert_eq!(population.len(), 2);
    assert_eq!(population[1].0, vec![1005, -1995, 505]);
}

#[test]
fn the_steepest_spike_is_traced() {
    let decoder = search(repetition_code(), small());
    let scores = vec![10, 12, 40, 41];
    let posteriors: Vec<Vec<i64>> = (0..4).map(|g| vec![g, g, g]).collect();
    let adjacent = vec![vec![], vec![0], vec![0, 1], vec![2]];
    let memory = vec![vec![1; 3]; 4];
    let spike = decoder
        .build_score_spike_trace(&scores, &posteriors, &adjacent, &memory, &vec![100; 4])
        .unwrap();
    assert_eq!(spike.spike_delta_score, 28);
    assert_eq!(spike.spike_score, 40);
    assert_eq!(spike.spike_prev_score, 12);
    assert_eq!(spike.spike_residual_adjacent_variable_indices, vec![0, 1]);
    assert!(decoder
        .build_score_spike_trace(&vec![10], &vec![vec![]], &vec![vec![]], &vec![vec![]], &vec![])
        .is_none());
    assert_eq!(decoder.residual_check_indices(&vec![1, 0], &vec![0, 0]), vec![0]);
    let (variables, llrs) = decoder.residual_adjacent_llrs(&vec![1], &vec![7, 8, 9]);
    assert_eq!((variables, llrs), (vec![1, 2], vec![8, 9]));
}
