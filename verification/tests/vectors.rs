use linear_algebra_101::vectors::{combination_dimension, from_columns, unit_vector};
use linear_algebra_101::LinAlgError;

#[test]
fn standard_builds_unit_vectors() {
    assert_eq!(unit_vector(3, 0, 0.0, 1.0).unwrap(), vec![1.0, 0.0, 0.0]);
    assert_eq!(unit_vector(3, 2, 0.0, 1.0).unwrap(), vec![0.0, 0.0, 1.0]);
    assert_eq!(unit_vector(1, 0, 0.0, 1.0).unwrap(), vec![1.0]);
}

#[test]
fn standard_rejects_out_of_range_index() {
    assert_eq!(
        unit_vector(3, 3, 0.0, 1.0).unwrap_err(),
        LinAlgError::IndexOutOfRange { index: 3, len: 3 }
    );
    assert_eq!(
        unit_vector(3, 99, 0.0, 1.0).unwrap_err(),
        LinAlgError::IndexOutOfRange { index: 99, len: 3 }
    );
}

#[test]
fn linear_combination_rejects_count_mismatch() {
    // Three scalars, two vectors.
    assert_eq!(
        combination_dimension(3, &vec![2, 2]).unwrap_err(),
        LinAlgError::CountMismatch
    );
}

#[test]
fn linear_combination_rejects_dimension_mismatch() {
    assert_eq!(
        combination_dimension(2, &vec![2, 1]).unwrap_err(),
        LinAlgError::DimensionMismatch
    );
}

#[test]
fn linear_combination_rejects_empty() {
    assert_eq!(
        combination_dimension(0, &vec![]).unwrap_err(),
        LinAlgError::EmptyInput
    );
}

#[test]
fn linear_combination_shape_is_the_common_length() {
    assert_eq!(combination_dimension(2, &vec![3, 3]), Ok(3));
    assert_eq!(combination_dimension(1, &vec![0]), Ok(0));
    // The count is checked before anything else.
    assert_eq!(
        combination_dimension(1, &vec![]).unwrap_err(),
        LinAlgError::CountMismatch
    );
}

#[test]
fn standard_matrix_of_formula_example() {
    // T(x₁, x₂, x₃) = (3x₁ − 4x₂, 2x₁ + x₃): images of e₁, e₂, e₃ become columns.
    let images = vec![vec![3.0, 2.0], vec![-4.0, 0.0], vec![0.0, 1.0]];
    assert_eq!(
        from_columns(&images).unwrap(),
        vec![vec![3.0, -4.0, 0.0], vec![2.0, 0.0, 1.0]]
    );
}

#[test]
fn standard_matrix_rejects_empty_domain() {
    let none: Vec<Vec<f64>> = vec![];
    assert_eq!(from_columns(&none).unwrap_err(), LinAlgError::EmptyInput);
}

#[test]
fn standard_matrix_rejects_inconsistent_codomain() {
    let images = vec![vec![1.0, 0.0], vec![0.0, 1.0, 5.0]];
    assert_eq!(
        from_columns(&images).unwrap_err(),
        LinAlgError::DimensionMismatch
    );
}
