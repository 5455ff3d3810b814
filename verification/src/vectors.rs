//! Column vectors and lists of them: standard basis vectors, the shape checks
//! of a linear combination, and matrices assembled from columns.

use vstd::prelude::*;

use crate::error::LinAlgError;
use crate::grid::{grid, transposed, width};

verus! {

/// The standard basis vector `eᵢ` of length `rows`: `one` at `i`, `zero`
/// elsewhere.
pub open spec fn unit<T>(rows: nat, i: int, zero: T, one: T) -> Seq<T> {
    Seq::new(rows, |k: int| if k == i { one } else { zero })
}

/// `eᵢ` has `rows` entries: `one` at index `i` and `zero` at every other
/// index.
pub proof fn lemma_unit_entries<T>(rows: nat, i: int, zero: T, one: T)
    requires
        0 <= i < rows,
    ensures
        unit(rows, i, zero, one).len() == rows,
        unit(rows, i, zero, one)[i] == one,
        forall|k: int| 0 <= k < rows && k != i ==> #[trigger] unit(rows, i, zero, one)[k] == zero,
{
}

/// The standard basis vector `eᵢ` of length `rows`, or `IndexOutOfRange`
/// when `i` is not below `rows`. It is column `i` of the identity.
pub fn unit_vector<T: Copy>(rows: usize, i: usize, zero: T, one: T) -> (r: Result<Vec<T>, LinAlgError>)
    ensures
        match r {
            Ok(v) => {
                &&& i < rows
                &&& v@ == unit(rows as nat, i as int, zero, one)
                &&& v@.len() == rows
                &&& v@[i as int] == one
                &&& forall|k: int| 0 <= k < rows && k != i ==> #[trigger] v@[k] == zero
            },
            Err(e) => i >= rows && e == LinAlgError::IndexOutOfRange { index: i, len: rows },
        },
{
    if i >= rows {
        return Err(LinAlgError::IndexOutOfRange { index: i, len: rows });
    }
    let mut v: Vec<T> = Vec::new();
    for k in 0..rows
        invariant
            v@.len() == k,
            forall|j: int| 0 <= j < k ==> #[trigger] v@[j] == if j == i { one } else { zero },
    {
        if k == i {
            v.push(one);
        } else {
            v.push(zero);
        }
    }
    assert(v@ =~= unit(rows as nat, i as int, zero, one));
    Ok(v)
}

/// The length of the vectors of a linear combination `Σ cᵢ·vᵢ` with
/// `scalar_count` scalars and vectors of lengths `lengths`, or why the
/// combination is not defined. The checks come in this order:
///
/// - as many scalars as vectors, else `CountMismatch`;
/// - at least one vector (to know the length of the result), else
///   `EmptyInput`;
/// - all vectors of one length, else `DimensionMismatch`.
pub fn combination_dimension(scalar_count: usize, lengths: &Vec<usize>) -> (r: Result<
    usize,
    LinAlgError,
>)
    ensures
        match r {
            Ok(d) => {
                &&& scalar_count == lengths@.len()
                &&& lengths@.len() > 0
                &&& d == lengths@[0]
                &&& forall|k: int| 0 <= k < lengths@.len() ==> #[trigger] lengths@[k] == d
            },
            Err(e) => if scalar_count != lengths@.len() {
                e == LinAlgError::CountMismatch
            } else if lengths@.len() == 0 {
                e == LinAlgError::EmptyInput
            } else {
                e == LinAlgError::DimensionMismatch && exists|k: int|
                    0 <= k < lengths@.len() && #[trigger] lengths@[k] != lengths@[0]
            },
        },
{
    if scalar_count != lengths.len() {
        return Err(LinAlgError::CountMismatch);
    }
    if lengths.len() == 0 {
        return Err(LinAlgError::EmptyInput);
    }
    let d = lengths[0];
    for k in 0..lengths.len()
        invariant
            scalar_count == lengths@.len(),
            lengths@.len() > 0,
            d == lengths@[0],
            forall|j: int| 0 <= j < k ==> #[trigger] lengths@[j] == d,
    {
        if lengths[k] != d {
            assert(lengths@[k as int] != lengths@[0]);
            return Err(LinAlgError::DimensionMismatch);
        }
    }
    Ok(d)
}

/// The matrix whose columns are `columns` (each given top to bottom): entry
/// `(i, j)` is `columns[j][i]`. With no column the number of rows is unknown
/// (`EmptyInput`); columns of different lengths do not make a matrix
/// (`DimensionMismatch`).
pub fn from_columns<T: Copy>(columns: &Vec<Vec<T>>) -> (r: Result<Vec<Vec<T>>, LinAlgError>)
    ensures
        match r {
            Ok(m) => {
                &&& columns@.len() > 0
                &&& forall|j: int|
                    0 <= j < columns@.len() ==> #[trigger] columns@[j]@.len() == columns@[0]@.len()
                &&& grid(&m) == transposed(grid(columns))
            },
            Err(e) => if columns@.len() == 0 {
                e == LinAlgError::EmptyInput
            } else {
                e == LinAlgError::DimensionMismatch && exists|j: int|
                    0 <= j < columns@.len() && #[trigger] columns@[j]@.len() != columns@[0]@.len()
            },
        },
{
    if columns.len() == 0 {
        return Err(LinAlgError::EmptyInput);
    }
    let m = columns[0].len();
    for j in 0..columns.len()
        invariant
            columns@.len() > 0,
            m == columns@[0]@.len(),
            forall|k: int| 0 <= k < j ==> #[trigger] columns@[k]@.len() == m,
    {
        if columns[j].len() != m {
            assert(columns@[j as int]@.len() != columns@[0]@.len());
            return Err(LinAlgError::DimensionMismatch);
        }
    }
    let ghost g = grid(columns);
    assert forall|k: int| 0 <= k < g.len() implies #[trigger] g[k].len() >= width(g) by {
        assert(g[k] == columns@[k]@);
        assert(g[0] == columns@[0]@);
    }
    Ok(crate::grid::transpose(columns))
}

} // verus!
