use relay_bp::decoder::{BPExtraResult, Decoder};
use relay_bp::lbf::{compute_variable_neighborhoods, LbfDecoder, LbfDecoderConfig};
use relay_bp::matrix::{Bit, SparseBitMatrix};

fn make_lbf(
    check_matrix: SparseBitMatrix,
    max_iter: usize,
    weight: usize,
    k_step: usize,
) -> LbfDecoder {
    LbfDecoder::new(check_matrix, LbfDecoderConfig { max_iter, weight, k_step })
}

#[test]
fn lbf_repetition_code_trivial_cases_succeed() {
    let h = SparseBitMatrix::from_dense(&vec![vec![1, 1, 0], vec![0, 1, 1]], 3);
    let mut dec = make_lbf(h, 20, 1000, 2);
    let syndromes: Vec<Vec<Bit>> = vec![vec![1, 0], vec![1, 1], vec![0, 1]];
    for s in syndromes {
        let result = dec.decode_detailed(&s);
        assert!(result.success, "expected success for syndrome {s:?}");
        assert_eq!(result.decoded_detectors, s);
        assert!(result.iterations <= 20);
    }
}

fn hamming_code() -> SparseBitMatrix {
    SparseBitMatrix::from_dense(
        &vec![
            vec![1, 0, 0, 1, 0, 1, 1],
            vec![0, 1, 0, 1, 1, 0, 1],
            vec![0, 0, 1, 0, 1, 1, 1],
        ],
        7,
    )
}

#[test]
fn lbf_steane_code_single_error_syndromes_succeed() {
    let h = hamming_code();
    let mut dec = make_lbf(h.clone(), 50, 1000, 2);
    for j in 0..3 {
        let mut e = vec![0; 7];
        e[j] = 1;
        let s = h.mul_mod2(&e);
        let result = dec.decode_detailed(&s);
        assert!(result.success, "expected success for single-error at col {j}");
        assert_eq!(result.decoded_detectors, s);
    }
    let mut e6 = vec![0; 7];
    e6[6] = 1;
    let s6 = h.mul_mod2(&e6);
    let result6 = dec.decode_detailed(&s6);
    assert!(result6.success, "expected success for syndrome of col 6");
    assert_eq!(result6.decoded_detectors, s6);
}

#[test]
fn the_outcome_tells_whether_it_converged() {
    let h = SparseBitMatrix::from_dense(&vec![vec![1, 1], vec![1, 1]], 2);
    let mut dec = make_lbf(h, 5, 1000, 2);
    let good = dec.decode_detailed(&vec![0, 0]);
    assert!(good.success);
    assert_eq!(good.decoding, vec![0, 0]);
    let bad = Decoder::decode_detailed(&mut dec, &vec![1, 0]);
    assert!(!bad.success);
    assert_eq!(bad.iterations, 5);
    match bad.extra {
        BPExtraResult::LBFTrace { converged } => assert!(!converged),
        _ => panic!("the flipping is recorded"),
    }
}

#[test]
fn the_last_flip_counts() {
    let h = SparseBitMatrix::from_dense(&vec![vec![1, 1, 0], vec![0, 1, 1]], 3);
    let result = make_lbf(h.clone(), 1, 1000, 2).decode_detailed(&vec![1, 0]);
    assert_eq!(result.decoding, vec![1, 0, 0]);
    assert_eq!(result.decoded_detectors, vec![1, 0]);
    assert_eq!(result.iterations, 1);
    assert!(result.success);
    assert!(!make_lbf(h, 0, 1000, 2).decode_detailed(&vec![1, 0]).success);
}

#[test]
fn neighborhoods_grow_by_two_steps() {
    // A chain of four variables.
    let variables = vec![vec![0], vec![0, 1], vec![1, 2], vec![2]];
    let checks = vec![vec![0, 1], vec![1, 2], vec![2, 3]];
    let none = compute_variable_neighborhoods(&variables, &checks, 0);
    assert!(none.iter().all(|list| list.is_empty()));
    let near = compute_variable_neighborhoods(&variables, &checks, 2);
    assert_eq!(near, vec![vec![1], vec![0, 2], vec![1, 3], vec![2]]);
    assert_eq!(compute_variable_neighborhoods(&variables, &checks, 3), near);
    let far = compute_variable_neighborhoods(&variables, &checks, 4);
    assert_eq!(far, vec![vec![1, 2], vec![0, 2, 3], vec![0, 1, 3], vec![1, 2]]);
}

#[test]
fn neighborhoods_are_symmetric() {
    let h = hamming_code();
    let variables: Vec<Vec<usize>> = (0..7).map(|v| h.col_indices(v)).collect();
    let checks: Vec<Vec<usize>> = (0..3).map(|c| h.row_indices(c)).collect();
    let near = compute_variable_neighborhoods(&variables, &checks, 2);
    for v in 0..7 {
        for u in 0..7 {
            assert_eq!(near[v].contains(&u), near[u].contains(&v));
        }
    }
    assert_eq!(near[0], vec![3, 5, 6]);
}
