//! linear-algebra-101: the exact, float-free core of a small linear algebra
//! library, each function proved against its contract.
//!
//! What lives here is the part of the library whose behaviour does not depend
//! on floating-point values:
//!
//! - `grid`: the row-major layout of a matrix and its shape checks
//!   (transpose, rows, columns, submatrices, row operations, diagonals, augmented
//!   matrices, flattening);
//! - `pivots`: pivots, pivot and free columns of an echelon form (with
//!   rank + nullity = number of columns), and the standard-basis test on the
//!   columns of a reduced matrix, from zero tests made by the caller;
//! - `system`: the kind of a row of `[A | b]` and the solutions read off a
//!   reduced augmented matrix;
//! - `vectors`: standard basis vectors and the shape checks of linear
//!   combinations and of matrices built from columns;
//! - `composition`: one-to-one, onto and invertible from the rank;
//! - `predicate_set`: sets given by a membership rule, their algebra, and
//!   the subspace tests (`contains_zero`, `closed_at`);
//! - `trace`: the bookkeeping of step-by-step elimination traces;
//! - `error`, `text`: the error type and its messages.

pub mod composition;
pub mod error;
pub mod grid;
pub mod pivots;
pub mod predicate_set;
pub mod system;
pub mod trace;
pub mod vectors;
pub mod text;

pub use error::LinAlgError;

pub use predicate_set::PredicateSet;
