use sv_analysis::spectrum::{CoverageCounts, SpectrumMatrix};
use sv_analysis::sampler::generate_interval_sequence;

fn example() -> SpectrumMatrix {
    let matrix = vec![vec![1, 0, 1, 0], vec![1, 1, 0, 1], vec![0, 1, 1, 0]];
    let results = vec![false, true, false];
    SpectrumMatrix::new(matrix, results).unwrap()
}

#[test]
fn test_spectrum_matrix_creation() {
    let matrix = vec![vec![1, 0, 1, 0], vec![1, 1, 0, 1], vec![0, 1, 1, 0]];
    let results = vec![false, true, false];

    let spectrum = SpectrumMatrix::new(matrix, results).unwrap();
    assert_eq!(spectrum.num_tests(), 3);
    assert_eq!(spectrum.num_statements(), 4);
}

#[test]
fn new_refuses_mismatched_results() {
    let r = SpectrumMatrix::new(vec![vec![1, 0]], vec![true, false]);
    match r {
        Err(e) => assert_eq!(e, "Number of test results must match number of matrix rows"),
        Ok(_) => panic!("expected an error"),
    }
}

#[test]
fn empty_matrix_has_no_statements() {
    let s = SpectrumMatrix::new(vec![], vec![]).unwrap();
    assert_eq!(s.num_tests(), 0);
    assert_eq!(s.num_statements(), 0);
}

#[test]
fn coverage_cells() {
    let s = example();
    assert_eq!(s.get_coverage(0, 0), Some(true));
    assert_eq!(s.get_coverage(0, 1), Some(false));
    assert_eq!(s.get_coverage(2, 3), Some(false));
    assert_eq!(s.get_coverage(3, 0), None);
    assert_eq!(s.get_coverage(0, 4), None);
}

#[test]
fn add_test_checks_width() {
    let mut s = example();
    match s.add_test(vec![1, 1], true) {
        Err(e) => assert_eq!(e, "Coverage vector length must match number of statements"),
        Ok(_) => panic!("expected an error"),
    }
    assert_eq!(s.num_tests(), 3);
    assert!(s.add_test(vec![0, 0, 0, 1], true).is_ok());
    assert_eq!(s.num_tests(), 4);
    assert_eq!(s.get_coverage(3, 3), Some(true));
}

#[test]
fn add_test_to_empty_matrix_takes_any_width() {
    let mut s = SpectrumMatrix::new(vec![], vec![]).unwrap();
    assert!(s.add_test(vec![1, 0, 1], false).is_ok());
    assert_eq!(s.num_statements(), 3);
}

#[test]
fn counts_of_statements() {
    let s = example();
    assert_eq!(s.coverage_counts(0), CoverageCounts { a_ef: 1, a_ep: 1, a_nf: 1, a_np: 0 });
    assert_eq!(s.coverage_counts(2), CoverageCounts { a_ef: 2, a_ep: 0, a_nf: 0, a_np: 1 });
    assert_eq!(s.coverage_counts(9), CoverageCounts { a_ef: 0, a_ep: 0, a_nf: 0, a_np: 0 });
}

#[test]
fn counts_add_up_to_tests() {
    let s = example();
    for j in 0..4 {
        let c = s.coverage_counts(j);
        assert_eq!(c.a_ef + c.a_ep + c.a_nf + c.a_np, 3);
        assert_eq!(c.a_ef + c.a_nf, 2);
        assert_eq!(c.a_ep + c.a_np, 1);
    }
}

#[test]
fn interval_sequence_ends_at_failure() {
    assert_eq!(generate_interval_sequence(10, 2, 2), vec![2, 6, 10]);
    assert_eq!(generate_interval_sequence(8, 2, 2), vec![0, 4, 8]);
    assert_eq!(generate_interval_sequence(0, 2, 2), vec![0]);
}

#[test]
fn interval_sequence_before_zero_is_empty() {
    assert_eq!(generate_interval_sequence(-1, 2, 2), Vec::<i64>::new());
}

#[test]
fn interval_sequence_with_zero_step_repeats() {
    assert_eq!(generate_interval_sequence(3, 0, 5), vec![3, 3, 3, 3]);
}
