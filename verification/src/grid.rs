//! The layout of a matrix: a row-major grid of entries, independent of what
//! the entries are.
//!
//! A matrix is stored as its rows. Its number of columns is not stored: it
//! is read off the first row (and is 0 when there is no row). Nothing forces
//! the rows to have one length; the operations that read a column need every
//! row to be at least as long as the first one.
//!
//! Everything here moves entries around without looking at their values:
//! transposing, taking a column, deleting a row and a column, swapping rows,
//! embedding a diagonal, and joining or splitting an augmented matrix.

use vstd::prelude::*;

use crate::error::LinAlgError;

verus! {

/// The rows of `data`, as sequences.
pub open spec fn grid<T>(data: &Vec<Vec<T>>) -> Seq<Seq<T>> {
    data@.map_values(|row: Vec<T>| row@)
}

/// The number of columns of a grid: the length of its first row, or 0.
pub open spec fn width<T>(g: Seq<Seq<T>>) -> nat {
    if g.len() == 0 {
        0
    } else {
        g[0].len()
    }
}

/// No row of the grid is shorter than the first one, so every column index
/// below the width is valid in every row.
pub open spec fn no_short_rows<T>(g: Seq<Seq<T>>) -> bool {
    forall|i: int| 0 <= i < g.len() ==> #[trigger] g[i].len() >= width(g)
}

/// Every row of the grid has exactly `cols` entries.
pub open spec fn all_rows_have<T>(g: Seq<Seq<T>>, cols: nat) -> bool {
    forall|i: int| 0 <= i < g.len() ==> #[trigger] g[i].len() == cols
}

/// The transpose: entry `(i, j)` of `g` becomes entry `(j, i)`.
pub open spec fn transposed<T>(g: Seq<Seq<T>>) -> Seq<Seq<T>> {
    Seq::new(width(g), |j: int| Seq::new(g.len(), |i: int| g[i][j]))
}

/// Column `j` of `g`, top to bottom.
pub open spec fn column_of<T>(g: Seq<Seq<T>>, j: int) -> Seq<T> {
    Seq::new(g.len(), |i: int| g[i][j])
}

/// `s` without its entry at `k`; `s` itself when `k` is past its end.
pub open spec fn remove_at<T>(s: Seq<T>, k: int) -> Seq<T> {
    Seq::new(
        if k < s.len() {
            (s.len() - 1) as nat
        } else {
            s.len()
        },
        |c: int|
            if c < k {
                s[c]
            } else {
                s[c + 1]
            },
    )
}

/// The grid `g` without row `row` and without column `col`.
pub open spec fn minor<T>(g: Seq<Seq<T>>, row: int, col: int) -> Seq<Seq<T>> {
    remove_at(g, row).map_values(|r: Seq<T>| remove_at(r, col))
}

/// The square grid with `d` on its main diagonal and `zero` elsewhere.
pub open spec fn diagonal_grid<T>(d: Seq<T>, zero: T) -> Seq<Seq<T>> {
    Seq::new(d.len(), |i: int| Seq::new(d.len(), |j: int| if i == j { d[i] } else { zero }))
}

/// The augmented grid `[A | b]`: each row of `A` followed by the matching
/// entry of `b`.
pub open spec fn augmented<T>(a: Seq<Seq<T>>, b: Seq<T>) -> Seq<Seq<T>> {
    Seq::new(a.len(), |i: int| a[i].push(b[i]))
}

/// The number of columns of `data` (the length of its first row, or 0).
pub fn column_count<T>(data: &Vec<Vec<T>>) -> (c: usize)
    ensures
        c == width(grid(data)),
{
    if data.len() == 0 {
        0
    } else {
        data[0].len()
    }
}

/// Whether `data` is square: as many rows as columns.
pub fn is_square<T>(data: &Vec<Vec<T>>) -> (r: bool)
    ensures
        r == (data@.len() == width(grid(data))),
{
    data.len() == column_count(data)
}

/// Whether `a` and `b` have the same shape (rows and columns), as entrywise
/// sums need.
pub fn same_shape<T, U>(a: &Vec<Vec<T>>, b: &Vec<Vec<U>>) -> (r: bool)
    ensures
        r == (a@.len() == b@.len() && width(grid(a)) == width(grid(b))),
{
    a.len() == b.len() && column_count(a) == column_count(b)
}

/// Whether the product `a·b` is defined: `a` has as many columns as `b` has
/// rows.
pub fn can_multiply<T, U>(a: &Vec<Vec<T>>, b: &Vec<Vec<U>>) -> (r: bool)
    ensures
        r == (width(grid(a)) == b@.len()),
{
    column_count(a) == b.len()
}

/// The transpose of `data`: an `n×m` grid from an `m×n` one.
pub fn transpose<T: Copy>(data: &Vec<Vec<T>>) -> (r: Vec<Vec<T>>)
    requires
        no_short_rows(grid(data)),
    ensures
        grid(&r) == transposed(grid(data)),
{
    let ghost g = grid(data);
    let rows = data.len();
    let cols = column_count(data);
    let mut result: Vec<Vec<T>> = Vec::new();
    for j in 0..cols
        invariant
            g == grid(data),
            rows == g.len(),
            cols == width(g),
            no_short_rows(g),
            result@.len() == j,
            forall|k: int| 0 <= k < j ==> #[trigger] result@[k]@ == column_of(g, k),
    {
        let mut col: Vec<T> = Vec::new();
        for i in 0..rows
            invariant
                g == grid(data),
                rows == g.len(),
                cols == width(g),
                no_short_rows(g),
                j < cols,
                col@.len() == i,
                forall|k: int| 0 <= k < i ==> #[trigger] col@[k] == g[k][j as int],
        {
            assert(g[i as int] == data@[i as int]@);
            assert(g[i as int].len() >= width(g));
            col.push(data[i][j]);
        }
        assert(col@ =~= column_of(g, j as int));
        result.push(col);
    }
    assert(grid(&result) =~= transposed(g));
    result
}

/// Column `j` of `data`, or `IndexOutOfRange` when `j` is not below the
/// number of columns.
pub fn column<T: Copy>(data: &Vec<Vec<T>>, j: usize) -> (r: Result<Vec<T>, LinAlgError>)
    requires
        no_short_rows(grid(data)),
    ensures
        match r {
            Ok(c) => j < width(grid(data)) && c@ == column_of(grid(data), j as int),
            Err(e) => j >= width(grid(data)) && e == LinAlgError::IndexOutOfRange {
                index: j,
                len: width(grid(data)) as usize,
            },
        },
{
    let ghost g = grid(data);
    let cols = column_count(data);
    if j >= cols {
        return Err(LinAlgError::IndexOutOfRange { index: j, len: cols });
    }
    let mut col: Vec<T> = Vec::new();
    for i in 0..data.len()
        invariant
            g == grid(data),
            no_short_rows(g),
            j < width(g),
            col@.len() == i,
            forall|k: int| 0 <= k < i ==> #[trigger] col@[k] == g[k][j as int],
    {
        assert(g[i as int] == data@[i as int]@);
        col.push(data[i][j]);
    }
    assert(col@ =~= column_of(g, j as int));
    Ok(col)
}

/// `row` without its entry at `col` (unchanged when `col` is past its end).
fn without_entry<T: Copy>(row: &Vec<T>, col: usize) -> (r: Vec<T>)
    ensures
        r@ == remove_at(row@, col as int),
{
    let mut out: Vec<T> = Vec::new();
    for c in 0..row.len()
        invariant
            out@.len() == if c <= col {
                c as int
            } else {
                c - 1
            },
            forall|k: int|
                0 <= k < out@.len() ==> #[trigger] out@[k] == if k < col {
                    row@[k]
                } else {
                    row@[k + 1]
                },
    {
        if c != col {
            out.push(row[c]);
        }
    }
    assert(out@ =~= remove_at(row@, col as int));
    out
}

/// The submatrix `A₍ᵢⱼ₎`: `data` without row `row` and without column `col`
/// (0-based), the ingredient of cofactor expansion.
///
/// Any shape is accepted; a 1×1 grid gives the empty grid. The row index is
/// checked first, then the column index, each against its own bound.
pub fn submatrix<T: Copy>(data: &Vec<Vec<T>>, row: usize, col: usize) -> (r: Result<
    Vec<Vec<T>>,
    LinAlgError,
>)
    ensures
        match r {
            Ok(m) => row < grid(data).len() && col < width(grid(data)) && grid(&m) == minor(
                grid(data),
                row as int,
                col as int,
            ),
            Err(e) => if row >= data@.len() {
                e == LinAlgError::IndexOutOfRange { index: row, len: data@.len() as usize }
            } else {
                col >= width(grid(data)) && e == LinAlgError::IndexOutOfRange {
                    index: col,
                    len: width(grid(data)) as usize,
                }
            },
        },
{
    let ghost g = grid(data);
    let rows = data.len();
    if row >= rows {
        return Err(LinAlgError::IndexOutOfRange { index: row, len: rows });
    }
    let cols = column_count(data);
    if col >= cols {
        return Err(LinAlgError::IndexOutOfRange { index: col, len: cols });
    }
    let mut out: Vec<Vec<T>> = Vec::new();
    for r in 0..rows
        invariant
            g == grid(data),
            rows == g.len(),
            row < rows,
            out@.len() == if r <= row {
                r as int
            } else {
                r - 1
            },
            forall|k: int|
                0 <= k < out@.len() ==> #[trigger] out@[k]@ == remove_at(
                    g[if k < row {
                        k
                    } else {
                        k + 1
                    }],
                    col as int,
                ),
    {
        if r != row {
            assert(g[r as int] == data@[r as int]@);
            out.push(without_entry(&data[r], col));
        }
    }
    assert(grid(&out) =~= minor(g, row as int, col as int));
    Ok(out)
}

/// Row `i` of `data`, or `IndexOutOfRange` when `i` is not below the
/// number of rows.
pub fn row<T>(data: &Vec<Vec<T>>, i: usize) -> (r: Result<&Vec<T>, LinAlgError>)
    ensures
        match r {
            Ok(found) => i < data@.len() && found@ == data@[i as int]@,
            Err(e) => i >= data@.len() && e == LinAlgError::IndexOutOfRange { index: i, len: data@.len() as usize },
        },
{
    if i >= data.len() {
        return Err(LinAlgError::IndexOutOfRange { index: i, len: data.len() });
    }
    Ok(&data[i])
}

/// Whether multiplying row `i` of a matrix with `rows` rows by a scalar is an
/// elementary row operation: `IndexOutOfRange` for a missing row (checked
/// first), `ScaleByZero` when the scalar is zero (`scalar_is_zero`).
pub fn check_scale_row(rows: usize, i: usize, scalar_is_zero: bool) -> (r: Result<(), LinAlgError>)
    ensures
        match r {
            Ok(()) => i < rows && !scalar_is_zero,
            Err(e) => if i >= rows {
                e == LinAlgError::IndexOutOfRange { index: i, len: rows }
            } else {
                scalar_is_zero && e == LinAlgError::ScaleByZero
            },
        },
{
    if i >= rows {
        return Err(LinAlgError::IndexOutOfRange { index: i, len: rows });
    }
    if scalar_is_zero {
        return Err(LinAlgError::ScaleByZero);
    }
    Ok(())
}

/// Whether adding a multiple of row `src` to row `dst` of a matrix with
/// `rows` rows is an elementary row operation: `IndexOutOfRange` for a
/// missing row (`dst` checked before `src`), `SameRow` when `dst == src`.
pub fn check_add_scaled_row(rows: usize, dst: usize, src: usize) -> (r: Result<(), LinAlgError>)
    ensures
        match r {
            Ok(()) => dst < rows && src < rows && dst != src,
            Err(e) => if dst >= rows {
                e == LinAlgError::IndexOutOfRange { index: dst, len: rows }
            } else if src >= rows {
                e == LinAlgError::IndexOutOfRange { index: src, len: rows }
            } else {
                dst == src && e == LinAlgError::SameRow
            },
        },
{
    if dst >= rows {
        return Err(LinAlgError::IndexOutOfRange { index: dst, len: rows });
    }
    if src >= rows {
        return Err(LinAlgError::IndexOutOfRange { index: src, len: rows });
    }
    if dst == src {
        return Err(LinAlgError::SameRow);
    }
    Ok(())
}

/// Swaps rows `i` and `j` of `data` in place; `i == j` leaves it unchanged.
///
/// An index that is not below the number of rows gives `IndexOutOfRange`
/// (`i` is checked first) and leaves `data` unchanged.
pub fn swap_rows<T>(data: &mut Vec<Vec<T>>, i: usize, j: usize) -> (r: Result<(), LinAlgError>)
    ensures
        match r {
            Ok(_) => i < old(data)@.len() && j < old(data)@.len() && final(data)@ == old(
                data,
            )@.update(i as int, old(data)@[j as int]).update(j as int, old(data)@[i as int]),
            Err(e) => *final(data) == *old(data) && if i >= old(data)@.len() {
                e == LinAlgError::IndexOutOfRange { index: i, len: old(data)@.len() as usize }
            } else {
                j >= old(data)@.len() && e == LinAlgError::IndexOutOfRange {
                    index: j,
                    len: old(data)@.len() as usize,
                }
            },
        },
{
    let rows = data.len();
    if i >= rows {
        return Err(LinAlgError::IndexOutOfRange { index: i, len: rows });
    }
    if j >= rows {
        return Err(LinAlgError::IndexOutOfRange { index: j, len: rows });
    }
    if i != j {
        let ghost before = data@;
        let mut held: Vec<T> = Vec::new();
        data.set_and_swap(i, &mut held);
        data.set_and_swap(j, &mut held);
        data.set_and_swap(i, &mut held);
        assert(data@ =~= before.update(i as int, before[j as int]).update(j as int, before[i as int]));
    } else {
        assert(data@ =~= data@.update(i as int, data@[j as int]).update(j as int, data@[i as int]));
    }
    Ok(())
}

/// The square grid with `d` on its main diagonal and `zero` everywhere else;
/// with `d` all ones it is the identity.
pub fn diagonal<T: Copy>(d: &Vec<T>, zero: T) -> (r: Vec<Vec<T>>)
    ensures
        grid(&r) == diagonal_grid(d@, zero),
        r@.len() == d@.len(),
        forall|i: int| 0 <= i < d@.len() ==> #[trigger] r@[i]@.len() == d@.len(),
        forall|i: int| 0 <= i < d@.len() ==> #[trigger] r@[i]@[i] == d@[i],
        forall|i: int, j: int|
            0 <= i < d@.len() && 0 <= j < d@.len() && i != j ==> #[trigger] r@[i]@[j] == zero,
{
    let n = d.len();
    let mut out: Vec<Vec<T>> = Vec::new();
    for i in 0..n
        invariant
            n == d@.len(),
            out@.len() == i,
            forall|k: int| 0 <= k < i ==> #[trigger] out@[k]@ == diagonal_grid(d@, zero)[k],
    {
        let mut row: Vec<T> = Vec::new();
        for j in 0..n
            invariant
                n == d@.len(),
                i < n,
                row@.len() == j,
                forall|k: int|
                    0 <= k < j ==> #[trigger] row@[k] == if i == k {
                        d@[i as int]
                    } else {
                        zero
                    },
        {
            if i == j {
                row.push(d[i]);
            } else {
                row.push(zero);
            }
        }
        assert(row@ =~= diagonal_grid(d@, zero)[i as int]);
        out.push(row);
    }
    assert(grid(&out) =~= diagonal_grid(d@, zero));
    out
}

/// The main diagonal of `g`: entry `(i, i)` of each row.
pub open spec fn main_diagonal<T>(g: Seq<Seq<T>>) -> Seq<T> {
    Seq::new(g.len(), |i: int| g[i][i])
}

/// Some entry off the main diagonal is flagged.
pub open spec fn flagged_off_diagonal(flags: Seq<Seq<bool>>) -> bool {
    exists|i: int, j: int| 0 <= i < flags.len() && 0 <= j < flags[i].len() && i != j && #[trigger] flags[i][j]
}

/// The diagonal of a square matrix that is zero off its diagonal.
/// `nonzero[i][j]` says whether entry `(i, j)` of `data` counts as nonzero.
///
/// A matrix that is not square gives `NotSquare` with its shape; a square
/// one with a nonzero entry off the diagonal gives `NotDiagonal`.
pub fn diagonal_entries<T: Copy>(data: &Vec<Vec<T>>, nonzero: &Vec<Vec<bool>>) -> (r: Result<Vec<T>, LinAlgError>)
    requires
        data@.len() == width(grid(data)) ==> forall|i: int|
            0 <= i < data@.len() ==> i < #[trigger] data@[i]@.len(),
        nonzero@.len() == data@.len(),
        forall|i: int| 0 <= i < data@.len() ==> #[trigger] nonzero@[i]@.len() == data@[i]@.len(),
    ensures
        match r {
            Ok(d) => {
                &&& data@.len() == width(grid(data))
                &&& !flagged_off_diagonal(grid(nonzero))
                &&& d@ == main_diagonal(grid(data))
                &&& d@.len() == data@.len()
                &&& forall|i: int| 0 <= i < data@.len() ==> #[trigger] d@[i] == data@[i]@[i]
            },
            Err(e) => if data@.len() != width(grid(data)) {
                e == LinAlgError::NotSquare { rows: data@.len() as usize, cols: width(grid(data)) as usize }
            } else {
                flagged_off_diagonal(grid(nonzero)) && e == LinAlgError::NotDiagonal
            },
        },
{
    let ghost g = grid(data);
    let ghost f = grid(nonzero);
    let n = data.len();
    let cols = column_count(data);
    if n != cols {
        return Err(LinAlgError::NotSquare { rows: n, cols });
    }
    let mut d: Vec<T> = Vec::new();
    for i in 0..n
        invariant
            n == data@.len(),
            n == width(g),
            g == grid(data),
            f == grid(nonzero),
            forall|k: int| 0 <= k < n ==> k < #[trigger] data@[k]@.len(),
            nonzero@.len() == n,
            forall|k: int| 0 <= k < n ==> #[trigger] nonzero@[k]@.len() == data@[k]@.len(),
            d@ == main_diagonal(g).take(i as int),
            forall|a: int, b: int| 0 <= a < i && 0 <= b < f[a].len() && a != b ==> !#[trigger] f[a][b],
    {
        let flags = &nonzero[i];
        assert(flags@ == f[i as int]);
        for j in 0..flags.len()
            invariant
                flags@ == f[i as int],
                i < f.len(),
                n == data@.len(),
                n == width(g),
                g == grid(data),
                f == grid(nonzero),
                forall|b: int| 0 <= b < j && i != b ==> !#[trigger] f[i as int][b],
        {
            if i != j && flags[j] {
                assert(f[i as int][j as int]);
                return Err(LinAlgError::NotDiagonal);
            }
        }
        assert(g[i as int] == data@[i as int]@);
        let row = &data[i];
        d.push(row[i]);
        assert(d@ =~= main_diagonal(g).take(i + 1));
    }
    assert(d@ =~= main_diagonal(g));
    Ok(d)
}

/// Embedding a diagonal in a matrix and reading it off again gives the
/// diagonal back: the embedded matrix is square with `d` on its diagonal.
pub proof fn lemma_diagonal_round_trip<T>(d: Seq<T>, zero: T)
    ensures
        diagonal_grid(d, zero).len() == d.len(),
        width(diagonal_grid(d, zero)) == d.len(),
        all_rows_have(diagonal_grid(d, zero), d.len()),
        main_diagonal(diagonal_grid(d, zero)) == d,
{
    assert(main_diagonal(diagonal_grid(d, zero)) =~= d);
}

/// A square matrix that is `zero` off its diagonal is the embedding of its
/// own diagonal.
pub proof fn lemma_diagonal_grid_of_main_diagonal<T>(g: Seq<Seq<T>>, zero: T)
    requires
        all_rows_have(g, g.len()),
        forall|i: int, j: int| 0 <= i < g.len() && 0 <= j < g.len() && i != j ==> #[trigger] g[i][j] == zero,
    ensures
        diagonal_grid(main_diagonal(g), zero) == g,
{
    let n = g.len();
    assert forall|i: int| 0 <= i < n implies #[trigger] diagonal_grid(main_diagonal(g), zero)[i] == g[i] by {
        assert(diagonal_grid(main_diagonal(g), zero)[i] =~= g[i]);
    }
    assert(diagonal_grid(main_diagonal(g), zero) =~= g);
}

/// The augmented grid `[A | b]`: row `i` of `a` followed by `b[i]`.
pub fn augment<T: Copy>(a: &Vec<Vec<T>>, b: &Vec<T>) -> (r: Vec<Vec<T>>)
    requires
        a@.len() == b@.len(),
    ensures
        grid(&r) == augmented(grid(a), b@),
{
    let ghost g = grid(a);
    let mut out: Vec<Vec<T>> = Vec::new();
    for i in 0..a.len()
        invariant
            g == grid(a),
            a@.len() == b@.len(),
            out@.len() == i,
            forall|k: int| 0 <= k < i ==> #[trigger] out@[k]@ == augmented(g, b@)[k],
    {
        let mut row: Vec<T> = Vec::new();
        let source = &a[i];
        for c in 0..source.len()
            invariant
                row@ == source@.subrange(0, c as int),
        {
            row.push(source[c]);
            assert(row@ =~= source@.subrange(0, c + 1));
        }
        row.push(b[i]);
        assert(row@ =~= augmented(g, b@)[i as int]);
        out.push(row);
    }
    assert(grid(&out) =~= augmented(g, b@));
    out
}

/// Splits an augmented grid `[A | b]` into `A` (every row without its last
/// column) and `b` (its last column). A grid with no column gives
/// `EmptyMatrix`.
pub fn split_augmented<T: Copy>(aug: &Vec<Vec<T>>) -> (r: Result<(Vec<Vec<T>>, Vec<T>), LinAlgError>)
    requires
        no_short_rows(grid(aug)),
    ensures
        match r {
            Ok((a, b)) => {
                &&& width(grid(aug)) > 0
                &&& b@ == column_of(grid(aug), width(grid(aug)) - 1)
                &&& grid(&a) == grid(aug).map_values(
                    |row: Seq<T>| row.subrange(0, width(grid(aug)) - 1),
                )
            },
            Err(e) => width(grid(aug)) == 0 && e == LinAlgError::EmptyMatrix,
        },
{
    let ghost g = grid(aug);
    let cols = column_count(aug);
    if cols == 0 {
        return Err(LinAlgError::EmptyMatrix);
    }
    let n = cols - 1;
    let b = match column(aug, n) {
        Ok(b) => b,
        Err(e) => {
            return Err(e);
        },
    };
    let mut a: Vec<Vec<T>> = Vec::new();
    for i in 0..aug.len()
        invariant
            g == grid(aug),
            no_short_rows(g),
            n + 1 == width(g),
            a@.len() == i,
            forall|k: int| 0 <= k < i ==> #[trigger] a@[k]@ == g[k].subrange(0, n as int),
    {
        let source = &aug[i];
        assert(g[i as int] == source@);
        let mut row: Vec<T> = Vec::new();
        for c in 0..n
            invariant
                n <= source@.len(),
                row@ == source@.subrange(0, c as int),
        {
            row.push(source[c]);
            assert(row@ =~= source@.subrange(0, c + 1));
        }
        a.push(row);
    }
    assert(grid(&a) =~= g.map_values(|row: Seq<T>| row.subrange(0, n as int)));
    Ok((a, b))
}

/// Every row of the grid has the same length.
pub open spec fn is_rectangular<T>(g: Seq<Seq<T>>) -> bool {
    all_rows_have(g, width(g))
}

/// Transposing twice gives the matrix back: `(Aᵀ)ᵀ = A`.
///
/// A grid of rows that are all empty (`m×0` with `m > 0`) is the exception:
/// its transpose has no row, so the column count is lost.
pub proof fn lemma_transpose_involution<T>(g: Seq<Seq<T>>)
    requires
        is_rectangular(g),
        g.len() == 0 || width(g) > 0,
    ensures
        transposed(transposed(g)) == g,
{
    let t = transposed(g);
    if g.len() > 0 {
        assert(width(t) == g.len());
    }
    assert(transposed(t) =~~= g);
}

/// Deleting a row and a column shrinks both dimensions by one: the
/// submatrix of an `m×n` matrix (`m ≥ 2`) is `(m−1)×(n−1)`.
pub proof fn lemma_minor_shape<T>(g: Seq<Seq<T>>, row: int, col: int)
    requires
        is_rectangular(g),
        g.len() >= 2,
        0 <= row < g.len(),
        0 <= col < width(g),
    ensures
        minor(g, row, col).len() == g.len() - 1,
        is_rectangular(minor(g, row, col)),
        width(minor(g, row, col)) == width(g) - 1,
{
    let m = minor(g, row, col);
    assert forall|i: int| 0 <= i < m.len() implies #[trigger] m[i].len() == width(g) - 1 by {
        let src = if i < row {
            i
        } else {
            i + 1
        };
        assert(remove_at(g, row)[i] == g[src]);
    }
}

/// Each entry of the submatrix `A₍ᵢⱼ₎` is the entry of `A` found by skipping
/// row `i` and column `j`.
pub proof fn lemma_minor_entries<T>(g: Seq<Seq<T>>, row: int, col: int)
    requires
        is_rectangular(g),
        0 <= row < g.len(),
        0 <= col < width(g),
    ensures
        forall|r: int, c: int|
            0 <= r < g.len() - 1 && 0 <= c < width(g) - 1 ==> #[trigger] minor(g, row, col)[r][c]
                == g[if r < row {
                r
            } else {
                r + 1
            }][if c < col {
                c
            } else {
                c + 1
            }],
{
}

/// Deleting a row and a column commutes with transposing:
/// `(Aᵀ)₍ⱼᵢ₎ = (A₍ᵢⱼ₎)ᵀ`, for matrices of at least two rows and two columns.
pub proof fn lemma_minor_transpose<T>(g: Seq<Seq<T>>, row: int, col: int)
    requires
        is_rectangular(g),
        g.len() >= 2,
        width(g) >= 2,
        0 <= row < g.len(),
        0 <= col < width(g),
    ensures
        transposed(minor(g, row, col)) == minor(transposed(g), col, row),
{
    lemma_minor_shape(g, row, col);
    let lhs = transposed(minor(g, row, col));
    let rhs = minor(transposed(g), col, row);
    let t = transposed(g);
    assert(width(t) == g.len());
    assert(lhs.len() == rhs.len());
    assert forall|i: int| 0 <= i < lhs.len() implies #[trigger] lhs[i] =~= rhs[i] by {
        let src = if i < col {
            i
        } else {
            i + 1
        };
        assert(remove_at(t, col)[i] == t[src]);
        assert(lhs[i].len() == rhs[i].len());
        assert forall|k: int| 0 <= k < lhs[i].len() implies lhs[i][k] == rhs[i][k] by {
            let srow = if k < row {
                k
            } else {
                k + 1
            };
            assert(remove_at(g, row)[k] == g[srow]);
        }
    }
    assert(lhs =~= rhs);
}

/// Splitting the augmented matrix `[A | b]` gives back `A` and `b`, for a
/// rectangular `A` with at least one row.
pub proof fn lemma_augment_round_trip<T>(a: Seq<Seq<T>>, b: Seq<T>)
    requires
        is_rectangular(a),
        a.len() > 0,
        b.len() == a.len(),
    ensures
        no_short_rows(augmented(a, b)),
        width(augmented(a, b)) == width(a) + 1,
        column_of(augmented(a, b), width(a) as int) == b,
        augmented(a, b).map_values(|row: Seq<T>| row.subrange(0, width(a) as int)) == a,
{
    let g = augmented(a, b);
    assert(width(g) == width(a) + 1);
    assert(column_of(g, width(a) as int) =~= b);
    assert forall|i: int| 0 <= i < a.len() implies #[trigger] g[i].subrange(0, width(a) as int)
        =~= a[i] by {
        assert(g[i] == a[i].push(b[i]));
    }
    assert(g.map_values(|row: Seq<T>| row.subrange(0, width(a) as int)) =~= a);
}

/// Swapping the same two rows twice undoes the swap: the row swap is its own
/// inverse.
pub proof fn lemma_swap_involution<T>(rows: Seq<T>, i: int, j: int)
    requires
        0 <= i < rows.len(),
        0 <= j < rows.len(),
    ensures
        ({
            let once = rows.update(i, rows[j]).update(j, rows[i]);
            once.update(i, once[j]).update(j, once[i])
        }) == rows,
{
    let once = rows.update(i, rows[j]).update(j, rows[i]);
    assert(once.update(i, once[j]).update(j, once[i]) =~= rows);
}

/// Column `j` of the identity (the diagonal of ones) is the standard basis
/// vector `eⱼ`: `one` at `j`, `zero` elsewhere.
pub proof fn lemma_identity_columns<T>(n: nat, one: T, zero: T, j: int)
    requires
        0 <= j < n,
    ensures
        column_of(diagonal_grid(Seq::new(n, |i: int| one), zero), j) == Seq::new(
            n,
            |i: int|
                if i == j {
                    one
                } else {
                    zero
                },
        ),
{
    let id = diagonal_grid(Seq::new(n, |i: int| one), zero);
    assert(column_of(id, j) =~= Seq::new(n, |i: int| if i == j { one } else { zero }));
}

/// `s` cut into consecutive rows of `cols` entries; the last row holds what
/// is left and may be shorter.
pub open spec fn chunked<T>(s: Seq<T>, cols: nat) -> Seq<Seq<T>>
    recommends
        cols > 0,
    decreases s.len(),
{
    if s.len() == 0 || cols == 0 {
        Seq::empty()
    } else if s.len() <= cols {
        seq![s]
    } else {
        seq![s.take(cols as int)] + chunked(s.skip(cols as int), cols)
    }
}

/// The entries of `data` row after row (row-major order).
pub fn flatten<T: Copy>(data: &Vec<Vec<T>>) -> (r: Vec<T>)
    ensures
        r@ == grid(data).flatten(),
{
    let ghost g = grid(data);
    let mut out: Vec<T> = Vec::new();
    for i in 0..data.len()
        invariant
            g == grid(data),
            out@ == g.take(i as int).flatten(),
    {
        let row = &data[i];
        let ghost before = out@;
        for c in 0..row.len()
            invariant
                out@ == before + row@.take(c as int),
        {
            out.push(row[c]);
            assert(row@.take(c + 1) =~= row@.take(c as int).push(row@[c as int]));
            assert(out@ =~= before + row@.take(c + 1));
        }
        assert(row@.take(row@.len() as int) =~= row@);
        assert(g.take(i + 1) =~= g.take(i as int).push(g[i as int]));
        proof {
            g.take(i as int).lemma_flatten_push(g[i as int]);
        }
    }
    assert(g.take(data@.len() as int) =~= g);
    out
}

/// Cuts the row-major entries `data` into rows of `cols` entries (the last
/// row may be shorter).
pub fn reshape<T: Copy>(data: &Vec<T>, cols: usize) -> (r: Vec<Vec<T>>)
    requires
        cols > 0,
    ensures
        grid(&r) == chunked(data@, cols as nat),
{
    let mut out: Vec<Vec<T>> = Vec::new();
    let mut pos: usize = 0;
    assert(data@.skip(0) =~= data@);
    assert(grid(&out) + chunked(data@, cols as nat) =~= chunked(data@, cols as nat));
    while pos < data.len()
        invariant
            cols > 0,
            pos <= data@.len(),
            grid(&out) + chunked(data@.skip(pos as int), cols as nat) == chunked(data@, cols as nat),
        decreases data@.len() - pos,
    {
        let ghost rest = data@.skip(pos as int);
        let end = if data.len() - pos <= cols {
            data.len()
        } else {
            pos + cols
        };
        let mut row: Vec<T> = Vec::new();
        let mut k = pos;
        while k < end
            invariant
                pos <= k <= end <= data@.len(),
                row@ == data@.subrange(pos as int, k as int),
            decreases end - k,
        {
            row.push(data[k]);
            assert(row@ =~= data@.subrange(pos as int, k + 1));
            k = k + 1;
        }
        let ghost before = grid(&out);
        out.push(row);
        assert(grid(&out) =~= before.push(row@));
        if data.len() - pos <= cols {
            assert(row@ =~= rest);
            assert(data@.skip(end as int) =~= Seq::<T>::empty());
            assert(chunked(rest, cols as nat) == seq![rest]);
            assert(grid(&out) + chunked(data@.skip(end as int), cols as nat) =~= before + seq![rest]);
        } else {
            assert(row@ =~= rest.take(cols as int));
            assert(rest.skip(cols as int) =~= data@.skip(end as int));
            assert(chunked(rest, cols as nat) == seq![rest.take(cols as int)] + chunked(
                rest.skip(cols as int),
                cols as nat,
            ));
            assert(grid(&out) + chunked(data@.skip(end as int), cols as nat) =~= before + (seq![
                rest.take(cols as int),
            ] + chunked(rest.skip(cols as int), cols as nat)));
        }
        pos = end;
    }
    assert(data@.skip(pos as int) =~= Seq::<T>::empty());
    assert(grid(&out) + chunked(data@.skip(pos as int), cols as nat) =~= grid(&out));
    out
}

/// Cutting the row-major entries back into rows and reading them off again
/// gives the same entries.
pub proof fn lemma_chunked_flatten<T>(s: Seq<T>, cols: nat)
    requires
        cols > 0,
    ensures
        chunked(s, cols).flatten() == s,
    decreases s.len(),
{
    if s.len() == 0 {
    } else if s.len() <= cols {
        seq![s].lemma_flatten_one_element();
    } else {
        let head = s.take(cols as int);
        let tail = s.skip(cols as int);
        lemma_chunked_flatten(tail, cols);
        let c = chunked(s, cols);
        assert(c == seq![head] + chunked(tail, cols));
        assert(c.first() == head);
        assert(c.drop_first() =~= chunked(tail, cols));
        assert(head + tail =~= s);
    }
}

/// Reading a grid off row by row and cutting it into rows of the same length
/// gives the grid back: the row-major layout loses nothing.
pub proof fn lemma_flatten_chunked<T>(g: Seq<Seq<T>>, cols: nat)
    requires
        cols > 0,
        all_rows_have(g, cols),
    ensures
        chunked(g.flatten(), cols) == g,
    decreases g.len(),
{
    if g.len() == 0 {
    } else {
        let rest = g.drop_first();
        assert(all_rows_have(rest, cols)) by {
            assert forall|i: int| 0 <= i < rest.len() implies #[trigger] rest[i].len() == cols by {
                assert(rest[i] == g[i + 1]);
            }
        }
        lemma_flatten_chunked(rest, cols);
        lemma_flatten_len(rest, cols);
        let f = g.flatten();
        assert(f == g.first() + rest.flatten());
        assert(f.take(cols as int) =~= g.first());
        assert(f.skip(cols as int) =~= rest.flatten());
        if rest.len() == 0 {
            assert(f =~= g.first());
            assert(chunked(f, cols) == seq![f]);
            assert(g =~= seq![g.first()]);
        } else {
            assert(f.len() > cols);
            assert(chunked(f, cols) == seq![f.take(cols as int)] + chunked(f.skip(cols as int), cols));
            assert(g =~= seq![g.first()] + rest);
        }
    }
}

/// A grid of rows of `cols` entries has `rows × cols` entries.
proof fn lemma_flatten_len<T>(g: Seq<Seq<T>>, cols: nat)
    requires
        all_rows_have(g, cols),
    ensures
        g.flatten().len() == g.len() * cols,
    decreases g.len(),
{
    if g.len() > 0 {
        let rest = g.drop_first();
        assert(all_rows_have(rest, cols)) by {
            assert forall|i: int| 0 <= i < rest.len() implies #[trigger] rest[i].len() == cols by {
                assert(rest[i] == g[i + 1]);
            }
        }
        lemma_flatten_len(rest, cols);
        assert(g.len() * cols == cols + rest.len() * cols) by (nonlinear_arith)
            requires
                g.len() == rest.len() + 1,
        ;
    }
}

/// Row `i` of the grid of `data` is row `i` of `data`.
pub proof fn lemma_grid_rows<T>(data: &Vec<Vec<T>>)
    ensures
        grid(data).len() == data@.len(),
        forall|i: int| 0 <= i < data@.len() ==> #[trigger] grid(data)[i] == data@[i]@,
{
}

/// The transpose of an `m×n` grid is `n×m`, and its entry `(j, i)` is entry
/// `(i, j)` of the grid.
pub proof fn lemma_transposed_entries<T>(g: Seq<Seq<T>>)
    requires
        no_short_rows(g),
    ensures
        transposed(g).len() == width(g),
        forall|j: int| 0 <= j < width(g) ==> #[trigger] transposed(g)[j].len() == g.len(),
        forall|i: int, j: int|
            0 <= i < g.len() && 0 <= j < width(g) ==> #[trigger] transposed(g)[j][i] == g[i][j],
{
}

/// Column `j` has one entry per row: entry `i` of the column is entry
/// `(i, j)` of the grid.
pub proof fn lemma_column_entries<T>(g: Seq<Seq<T>>, j: int)
    ensures
        column_of(g, j).len() == g.len(),
        forall|i: int| 0 <= i < g.len() ==> #[trigger] column_of(g, j)[i] == g[i][j],
{
}

/// The grid that embeds `d` is `n×n` for `n = d.len()`, with `d[i]` at
/// `(i, i)` and `zero` everywhere off the diagonal.
pub proof fn lemma_diagonal_grid_entries<T>(d: Seq<T>, zero: T)
    ensures
        diagonal_grid(d, zero).len() == d.len(),
        forall|i: int| 0 <= i < d.len() ==> #[trigger] diagonal_grid(d, zero)[i].len() == d.len(),
        forall|i: int| 0 <= i < d.len() ==> #[trigger] diagonal_grid(d, zero)[i][i] == d[i],
        forall|i: int, j: int|
            0 <= i < d.len() && 0 <= j < d.len() && i != j ==> #[trigger] diagonal_grid(d, zero)[i][j]
                == zero,
{
}

/// Entry `i` of the main diagonal is entry `(i, i)`.
pub proof fn lemma_main_diagonal_entries<T>(g: Seq<Seq<T>>)
    ensures
        main_diagonal(g).len() == g.len(),
        forall|i: int| 0 <= i < g.len() ==> #[trigger] main_diagonal(g)[i] == g[i][i],
{
}

/// Row `i` of `[A | b]` is row `i` of `A` with `b[i]` appended.
pub proof fn lemma_augmented_entries<T>(a: Seq<Seq<T>>, b: Seq<T>)
    ensures
        augmented(a, b).len() == a.len(),
        forall|i: int| 0 <= i < a.len() ==> #[trigger] augmented(a, b)[i].len() == a[i].len() + 1,
        forall|i: int, j: int|
            0 <= i < a.len() && 0 <= j < a[i].len() ==> #[trigger] augmented(a, b)[i][j] == a[i][j],
        forall|i: int| 0 <= i < a.len() ==> #[trigger] augmented(a, b)[i][a[i].len() as int] == b[i],
{
}

/// Removing index `k` of `s` (for `k` in range) leaves the entries before
/// `k` in place and shifts those after it down by one.
pub proof fn lemma_remove_at_entries<T>(s: Seq<T>, k: int)
    requires
        0 <= k < s.len(),
    ensures
        remove_at(s, k).len() == s.len() - 1,
        forall|c: int| 0 <= c < k ==> #[trigger] remove_at(s, k)[c] == s[c],
        forall|c: int| k <= c < s.len() - 1 ==> #[trigger] remove_at(s, k)[c] == s[c + 1],
{
}

/// Cutting `s` into rows of `cols` entries: every row but the last has
/// exactly `cols` entries, the last has between 1 and `cols`, and the rows
/// read one after the other are `s` again.
pub proof fn lemma_chunked_rows<T>(s: Seq<T>, cols: nat)
    requires
        cols > 0,
    ensures
        forall|k: int| 0 <= k < chunked(s, cols).len() - 1 ==> #[trigger] chunked(s, cols)[k].len() == cols,
        chunked(s, cols).len() > 0 ==> 0 < chunked(s, cols).last().len() <= cols,
        s.len() == 0 <==> chunked(s, cols).len() == 0,
        chunked(s, cols).flatten() == s,
    decreases s.len(),
{
    lemma_chunked_flatten(s, cols);
    if s.len() > cols {
        let tail = s.skip(cols as int);
        lemma_chunked_rows(tail, cols);
        let c = chunked(s, cols);
        assert(c == seq![s.take(cols as int)] + chunked(tail, cols));
        assert forall|k: int| 0 <= k < c.len() - 1 implies #[trigger] c[k].len() == cols by {
            if k > 0 {
                assert(c[k] == chunked(tail, cols)[k - 1]);
            }
        }
        assert(c.last() == chunked(tail, cols).last());
    }
}

/// The number of columns of a grid whose rows all have `cols` entries is
/// `cols` (when it has a row), and a grid with no row has no column.
pub proof fn lemma_width_of_rows<T>(g: Seq<Seq<T>>, cols: nat)
    ensures
        g.len() == 0 ==> width(g) == 0,
        g.len() > 0 && all_rows_have(g, cols) ==> width(g) == cols,
        g.len() > 0 ==> width(g) == g[0].len(),
{
}

/// A single nonzero flag off the diagonal, anywhere in the grid (above or
/// below the diagonal, within the square or past it), is enough to flag the
/// grid, and a grid with every off-diagonal flag down is not flagged.
pub proof fn lemma_flagged_off_diagonal(flags: Seq<Seq<bool>>, i: int, j: int)
    ensures
        0 <= i < flags.len() && 0 <= j < flags[i].len() && i != j && flags[i][j]
            ==> flagged_off_diagonal(flags),
        (forall|a: int, b: int| 0 <= a < flags.len() && 0 <= b < flags[a].len() && a != b ==> !#[trigger] flags[a][b])
            ==> !flagged_off_diagonal(flags),
{
}

} // verus!
