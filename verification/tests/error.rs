use linear_algebra_101::LinAlgError;

#[test]
fn display_spells_out_dimension_mismatch() {
    assert_eq!(
        LinAlgError::DimensionMismatch.to_string(),
        "dimension mismatch: operands must have compatible dimensions"
    );
}

#[test]
fn display_spells_out_count_mismatch() {
    assert_eq!(
        LinAlgError::CountMismatch.to_string(),
        "count mismatch: number of scalars must equal number of vectors"
    );
}

#[test]
fn display_spells_out_empty_input() {
    assert_eq!(
        LinAlgError::EmptyInput.to_string(),
        "empty input: operation requires at least one vector"
    );
}

#[test]
fn display_interpolates_index_out_of_range() {
    assert_eq!(
        LinAlgError::IndexOutOfRange { index: 3, len: 3 }.to_string(),
        "index out of range: 3 is not in [0, 3)"
    );
}

#[test]
fn display_spells_out_scale_by_zero() {
    assert_eq!(
        LinAlgError::ScaleByZero.to_string(),
        "scale by zero: row operation must be invertible"
    );
}

#[test]
fn display_spells_out_same_row() {
    assert_eq!(
        LinAlgError::SameRow.to_string(),
        "rows must differ: add-scaled-row would not be invertible"
    );
}

#[test]
fn display_spells_out_empty_matrix() {
    assert_eq!(
        LinAlgError::EmptyMatrix.to_string(),
        "empty matrix: operation requires at least one column"
    );
}

#[test]
fn display_interpolates_not_a_basis() {
    assert_eq!(
        LinAlgError::NotABasis { dim: 2 }.to_string(),
        "not a basis: given vectors are not a basis of ℝ^2, so coordinates are undefined"
    );
}

#[test]
fn display_interpolates_not_square() {
    assert_eq!(
        LinAlgError::NotSquare { rows: 2, cols: 3 }.to_string(),
        "not square: matrix is 2×3, operation requires rows == cols"
    );
}

#[test]
fn display_spells_out_not_diagonal() {
    assert_eq!(
        LinAlgError::NotDiagonal.to_string(),
        "not diagonal: matrix has a non-zero entry off the main diagonal"
    );
}

#[test]
fn display_spells_out_not_invertible() {
    assert_eq!(
        LinAlgError::NotInvertible.to_string(),
        "not invertible: matrix is singular, so it has no inverse"
    );
}

#[test]
fn display_writes_multi_digit_numbers() {
    assert_eq!(
        LinAlgError::IndexOutOfRange { index: 1205, len: 10 }.to_string(),
        "index out of range: 1205 is not in [0, 10)"
    );
    assert_eq!(
        LinAlgError::NotSquare { rows: 0, cols: 100 }.to_string(),
        "not square: matrix is 0×100, operation requires rows == cols"
    );
    assert_eq!(
        LinAlgError::NotABasis { dim: usize::MAX }.to_string(),
        format!(
            "not a basis: given vectors are not a basis of ℝ^{}, so coordinates are undefined",
            usize::MAX
        )
    );
}

#[test]
fn errors_compare_by_variant_and_data() {
    assert_eq!(
        LinAlgError::IndexOutOfRange { index: 1, len: 2 },
        LinAlgError::IndexOutOfRange { index: 1, len: 2 }
    );
    assert_ne!(
        LinAlgError::IndexOutOfRange { index: 1, len: 2 },
        LinAlgError::IndexOutOfRange { index: 2, len: 2 }
    );
    assert_ne!(LinAlgError::SameRow, LinAlgError::ScaleByZero);
}
