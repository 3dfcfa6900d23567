use relay_bp::gf2::solve_system_rows;
use relay_bp::lsd::{run_lsd, run_lsd_with_priors, LsdMethod};
use relay_bp::matrix::SparseBitMatrix;
use relay_bp::union_find::{find, singletons, union};

fn fixed(x: f64) -> i64 {
    (x * 1_000_000.0).round() as i64
}

fn ratios(values: &[f64]) -> Vec<i64> {
    values.iter().map(|x| fixed(*x)).collect()
}

#[test]
fn test_lsd_basic_clustering() {
    let h = SparseBitMatrix::from_dense(&vec![vec![1, 1, 0], vec![0, 1, 1], vec![1, 0, 1]], 3);
    // Checks 0 and 1 are unsatisfied. Bit 1 is the weakest and joins them.
    let syndrome = vec![1, 1, 0];
    let llrs = ratios(&[-2.0, -0.5, -2.0]);

    let result = run_lsd(&h, &syndrome, &llrs, 0, "LSD_CS");

    assert!(!result.cluster_sizes.is_empty());
    assert!(result.cluster_ids[1] > 0);
    let covered_bits: usize = result.cluster_ids.iter().filter(|&&x| x > 0).count();
    assert!(covered_bits >= 1);
}

#[test]
fn test_lsd_merging() {
    let h = SparseBitMatrix::from_dense(&vec![vec![1, 0, 0], vec![1, 1, 0], vec![0, 1, 0]], 3);
    // Checks 0 and 2 are unsatisfied and meet at check 1.
    let syndrome = vec![1, 0, 1];
    let llrs = ratios(&[0.1, 0.1, 5.0]);

    let result = run_lsd(&h, &syndrome, &llrs, 0, "LSD_E");

    assert!(!result.cluster_sizes.is_empty());
    assert!(result.cluster_ids[0] > 0);
    assert!(result.cluster_ids[1] > 0);
    assert_eq!(result.cluster_ids[0], result.cluster_ids[1]);
}

#[test]
fn a_correction_explains_the_syndrome() {
    let h = SparseBitMatrix::from_dense(
        &vec![
            vec![1, 0, 0, 1, 0, 1, 1],
            vec![0, 1, 0, 1, 1, 0, 1],
            vec![0, 0, 1, 0, 1, 1, 1],
        ],
        7,
    );
    let llrs = ratios(&[3.0, 2.5, 2.0, 1.5, 1.0, 0.5, 4.0]);
    for method in ["LSD_0", "LSD_E", "LSD_CS"] {
        for syndrome in 1u8..8 {
            let s = vec![syndrome & 1, (syndrome >> 1) & 1, (syndrome >> 2) & 1];
            let result = run_lsd(&h, &s, &llrs, 2, method);
            let correction = result.lsd_correction.unwrap();
            assert_eq!(h.mul_mod2(&correction), s);
        }
    }
}

#[test]
fn clusters_are_weighed_by_the_priors() {
    let h = SparseBitMatrix::from_dense(&vec![vec![1, 1, 1, 0], vec![0, 1, 0, 1]], 4);
    let posterior = ratios(&[0.5, -0.3, 0.4, 0.6]);
    let priors = ratios(&[5.0, -1.5, 5.0, 5.0]);
    let s = vec![1, 1];
    for (order, method) in [(0, "LSD_0"), (4, "LSD_E"), (2, "LSD_CS")] {
        let result = run_lsd_with_priors(&h, &s, &posterior, &priors, order, method);
        assert_eq!(result.cluster_sizes, vec![1]);
        assert_eq!(result.cluster_llrs, vec![fixed(1.5) as i128]);
        assert_eq!(result.cluster_ids, vec![0, 1, 0, 0]);
        assert_eq!(result.lsd_correction, Some(vec![0, 1, 0, 0]));
    }
}

#[test]
fn a_satisfied_syndrome_needs_no_cluster() {
    let h = SparseBitMatrix::from_dense(&vec![vec![1, 1, 0], vec![0, 1, 1]], 3);
    let result = run_lsd(&h, &vec![0, 0], &ratios(&[1.0, 1.0, 1.0]), 0, "LSD_0");
    assert!(result.cluster_sizes.is_empty());
    assert_eq!(result.cluster_ids, vec![0, 0, 0]);
}

#[test]
fn methods_have_names() {
    assert_eq!(LsdMethod::from_str("LSD_0"), LsdMethod::LSD_0);
    assert_eq!(LsdMethod::from_str("LSD_E"), LsdMethod::LSD_E);
    assert_eq!(LsdMethod::from_str("LSD_CS"), LsdMethod::LSD_CS);
    assert_eq!(LsdMethod::from_str("anything"), LsdMethod::LSD_0);
}

#[test]
fn linear_systems_are_solved_over_bits() {
    let rows = vec![vec![1, 1, 0], vec![0, 1, 1]];
    let x = solve_system_rows(&rows, &vec![1, 0]).unwrap();
    assert_eq!((x[0] ^ x[1], x[1] ^ x[2]), (1, 0));
    let dependent = vec![vec![1, 1], vec![1, 1]];
    assert!(solve_system_rows(&dependent, &vec![1, 0]).is_none());
    assert!(solve_system_rows(&dependent, &vec![1, 1]).is_some());
}

#[test]
fn a_system_without_rows_or_columns_takes_only_zeros() {
    for rows in [vec![], vec![vec![], vec![]]] {
        assert_eq!(solve_system_rows(&rows, &vec![]), Some(vec![]));
        assert_eq!(solve_system_rows(&rows, &vec![0, 0, 0]), Some(vec![]));
        assert_eq!(solve_system_rows(&rows, &vec![0, 7]), None);
    }
}

#[test]
fn answers_add_up() {
    let rows = vec![vec![1, 1, 0, 1], vec![0, 1, 1, 0], vec![1, 0, 1, 1]];
    let targets = [vec![1, 0, 1], vec![0, 1, 1], vec![1, 1, 0]];
    let answers: Vec<Vec<u8>> =
        targets.iter().map(|t| solve_system_rows(&rows, t).unwrap()).collect();
    for k in 0..4 {
        assert_eq!(answers[0][k] ^ answers[1][k], answers[2][k]);
    }
    assert_eq!(solve_system_rows(&rows, &vec![0, 0, 0]), Some(vec![0; 4]));
}

#[test]
fn links_are_shortened_and_joined() {
    let mut parent = vec![1, 2, 3, 3, 0];
    assert_eq!(find(&mut parent, 0), 3);
    assert_eq!(parent, vec![3, 3, 3, 3, 0]);
    let mut parent = vec![1, 1, 3, 3];
    union(&mut parent, 0, 2);
    assert_eq!(parent, vec![1, 3, 3, 3]);
}

#[test]
fn a_search_over_a_hundred_columns_explains() {
    // A chain of a hundred checks and columns with one check fired at its end.
    let n = 100;
    let rows: Vec<Vec<u8>> = (0..n)
        .map(|c| (0..n).map(|x| if x == c || x + 1 == c { 1 } else { 0 }).collect())
        .collect();
    let h = SparseBitMatrix::from_dense(&rows, n);
    let mut syndrome = vec![0; n];
    syndrome[0] = 1;
    let result = run_lsd(&h, &syndrome, &vec![fixed(1.0); n], 0, "LSD_0");
    assert_eq!(h.mul_mod2(&result.lsd_correction.unwrap()), syndrome);
}

#[test]
fn an_unsolvable_syndrome_gets_no_correction() {
    // No error tells the equal checks apart, and the third check is next to them.
    let h = SparseBitMatrix::from_dense(&vec![vec![1, 1, 0], vec![1, 1, 0], vec![0, 1, 1]], 3);
    let llrs = ratios(&[1.0, 0.5, 0.1]);
    let result = run_lsd(&h, &vec![1, 0, 1], &llrs, 0, "LSD_0");
    assert_eq!(result.lsd_correction, Some(vec![0; 3]));
}

#[test]
fn a_correction_breaks_no_satisfied_check() {
    // Two parts: the first has no solution, the second has one.
    let h = SparseBitMatrix::from_dense(
        &vec![vec![1, 1, 0, 0], vec![1, 1, 0, 0], vec![0, 0, 1, 1], vec![0, 0, 0, 1]],
        4,
    );
    let llrs = ratios(&[1.0, 0.5, 0.1, 0.7]);
    let result = run_lsd(&h, &vec![1, 0, 1, 0], &llrs, 0, "LSD_0");
    assert_eq!(h.mul_mod2(&result.lsd_correction.unwrap()), vec![0, 0, 1, 0]);
}

#[test]
fn joined_sets_share_a_root() {
    let mut parent = singletons(5);
    assert_ne!(find(&mut parent, 0), find(&mut parent, 3));
    union(&mut parent, 0, 1);
    union(&mut parent, 3, 1);
    assert_eq!(find(&mut parent, 0), find(&mut parent, 3));
    assert_ne!(find(&mut parent, 0), find(&mut parent, 4));
}
