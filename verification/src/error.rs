//! The error type shared by every operation of the library.
//!
//! Dimension mismatches and the like are not the concern of any single
//! mathematical object, so the error type stands in a module of its own.

use vstd::prelude::*;

use crate::text::{decimal, decimal_string};

verus! {

/// Why a linear algebra operation could not be carried out.
///
/// Callers can `match` on the variant; the variants that carry data report
/// the offending index, length, dimension or shape.
#[derive(Debug, Clone, PartialEq, Eq, Structural)]
pub enum LinAlgError {
    /// Two operands (matrices or vectors) have incompatible dimensions.
    DimensionMismatch,
    /// Two inputs that must pair up have different counts (for example the
    /// scalars and the vectors of a linear combination).
    CountMismatch,
    /// The operation needs at least one input and got none.
    EmptyInput,
    /// `index` is not in `[0, len)`.
    IndexOutOfRange { index: usize, len: usize },
    /// An elementary row operation would multiply a row by zero.
    ScaleByZero,
    /// An elementary row operation names the same row twice.
    SameRow,
    /// The matrix has no column at all.
    EmptyMatrix,
    /// The given vectors are not a basis of the space of dimension `dim`.
    NotABasis { dim: usize },
    /// The operation needs a square matrix and got a `rows`×`cols` one.
    NotSquare { rows: usize, cols: usize },
    /// A square matrix has an entry off its main diagonal that is not zero.
    NotDiagonal,
    /// The matrix is singular, so it has no inverse.
    NotInvertible,
}

impl LinAlgError {
    /// The human-readable message of the error.
    pub open spec fn message(self) -> Seq<char> {
        match self {
            LinAlgError::DimensionMismatch => "dimension mismatch: operands must have compatible dimensions"@,
            LinAlgError::CountMismatch => "count mismatch: number of scalars must equal number of vectors"@,
            LinAlgError::EmptyInput => "empty input: operation requires at least one vector"@,
            LinAlgError::IndexOutOfRange { index, len } => "index out of range: "@ + decimal(
                index as nat,
            ) + " is not in [0, "@ + decimal(len as nat) + ")"@,
            LinAlgError::ScaleByZero => "scale by zero: row operation must be invertible"@,
            LinAlgError::SameRow => "rows must differ: add-scaled-row would not be invertible"@,
            LinAlgError::EmptyMatrix => "empty matrix: operation requires at least one column"@,
            LinAlgError::NotABasis { dim } => "not a basis: given vectors are not a basis of ℝ^"@
                + decimal(dim as nat) + ", so coordinates are undefined"@,
            LinAlgError::NotSquare { rows, cols } => "not square: matrix is "@ + decimal(
                rows as nat,
            ) + "×"@ + decimal(cols as nat) + ", operation requires rows == cols"@,
            LinAlgError::NotDiagonal => "not diagonal: matrix has a non-zero entry off the main diagonal"@,
            LinAlgError::NotInvertible => "not invertible: matrix is singular, so it has no inverse"@,
        }
    }

    /// Writes the message of the error as a `String`.
    #[allow(clippy::inherent_to_string)]
    pub fn to_string(&self) -> (s: String)
        ensures
            s@ == self.message(),
    {
        match self {
            LinAlgError::DimensionMismatch => String::from_str(
                "dimension mismatch: operands must have compatible dimensions",
            ),
            LinAlgError::CountMismatch => String::from_str(
                "count mismatch: number of scalars must equal number of vectors",
            ),
            LinAlgError::EmptyInput => String::from_str(
                "empty input: operation requires at least one vector",
            ),
            LinAlgError::IndexOutOfRange { index, len } => {
                let mut s = String::from_str("index out of range: ");
                s.append(decimal_string(*index).as_str());
                s.append(" is not in [0, ");
                s.append(decimal_string(*len).as_str());
                s.append(")");
                s
            },
            LinAlgError::ScaleByZero => String::from_str(
                "scale by zero: row operation must be invertible",
            ),
            LinAlgError::SameRow => String::from_str(
                "rows must differ: add-scaled-row would not be invertible",
            ),
            LinAlgError::EmptyMatrix => String::from_str(
                "empty matrix: operation requires at least one column",
            ),
            LinAlgError::NotABasis { dim } => {
                let mut s = String::from_str("not a basis: given vectors are not a basis of ℝ^");
                s.append(decimal_string(*dim).as_str());
                s.append(", so coordinates are undefined");
                s
            },
            LinAlgError::NotSquare { rows, cols } => {
                let mut s = String::from_str("not square: matrix is ");
                s.append(decimal_string(*rows).as_str());
                s.append("×");
                s.append(decimal_string(*cols).as_str());
                s.append(", operation requires rows == cols");
                s
            },
            LinAlgError::NotDiagonal => String::from_str(
                "not diagonal: matrix has a non-zero entry off the main diagonal",
            ),
            LinAlgError::NotInvertible => String::from_str(
                "not invertible: matrix is singular, so it has no inverse",
            ),
        }
    }
}

} // verus!
