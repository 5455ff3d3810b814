//! One-to-one, onto and invertible: what the rank of its matrix says about a
//! linear transformation `T(x) = Ax` from `ℝⁿ` to `ℝᵐ`.
//!
//! - `T` is one-to-one exactly when `rank(A) = n` (Theorem 2.11);
//! - `T` is onto exactly when `rank(A) = m` (Theorem 2.10);
//! - `T` is invertible exactly when it is both (Theorem 2.12).

use vstd::prelude::*;

use crate::pivots::{is_echelon, lemma_echelon_rank_bounds, pivots_of};

verus! {

/// The summary table of a transformation: one-to-one, onto, invertible.
#[derive(Debug, Clone, Copy, PartialEq, Eq, Structural)]
pub struct TransformationReport {
    /// Different inputs have different images.
    pub is_one_to_one: bool,
    /// Every vector of the codomain is an image.
    pub is_onto: bool,
    /// One-to-one and onto: the transformation has an inverse.
    pub is_invertible: bool,
}

/// The report of a transformation `ℝⁿ → ℝᵐ` whose matrix has rank `rank`.
pub open spec fn report_of(rank: nat, m: nat, n: nat) -> TransformationReport {
    TransformationReport {
        is_one_to_one: rank == n,
        is_onto: rank == m,
        is_invertible: rank == n && rank == m,
    }
}

impl TransformationReport {
    /// The report of a transformation `ℝⁿ → ℝᵐ` whose matrix has rank `rank`:
    /// one-to-one when `rank = n`, onto when `rank = m`, invertible when both.
    pub fn from_rank(rank: usize, m: usize, n: usize) -> (r: TransformationReport)
        ensures
            r == report_of(rank as nat, m as nat, n as nat),
            r.is_one_to_one == (rank == n),
            r.is_onto == (rank == m),
            r.is_invertible == (rank == n && rank == m),
    {
        let is_one_to_one = rank == n;
        let is_onto = rank == m;
        TransformationReport { is_one_to_one, is_onto, is_invertible: is_one_to_one && is_onto }
    }
}

/// What the report reads off the rank, whatever the shape of the matrix:
/// `T: ℝⁿ → ℝᵐ` is one-to-one exactly when `rank = n` (Theorem 2.11), onto
/// exactly when `rank = m` (Theorem 2.10), and invertible exactly when both
/// hold (Theorem 2.12). So a full-column-rank embedding (`rank = n < m`) is
/// one-to-one but not onto, and a full-row-rank projection (`rank = m < n`)
/// is onto but not one-to-one.
pub proof fn lemma_report_reads_rank(rank: nat, m: nat, n: nat)
    ensures
        report_of(rank, m, n).is_one_to_one <==> rank == n,
        report_of(rank, m, n).is_onto <==> rank == m,
        report_of(rank, m, n).is_invertible <==> rank == n && rank == m,
        m > n ==> report_of(n, m, n).is_one_to_one && !report_of(n, m, n).is_onto,
        n > m ==> report_of(m, m, n).is_onto && !report_of(m, m, n).is_one_to_one,
{
}

/// Invertible means one-to-one and onto (Theorem 2.12).
pub proof fn lemma_invertible_is_bijective(rank: nat, m: nat, n: nat)
    ensures
        report_of(rank, m, n).is_invertible == (report_of(rank, m, n).is_one_to_one && report_of(
            rank,
            m,
            n,
        ).is_onto),
{
}

/// For a square matrix the three answers agree: one-to-one, onto and
/// invertible all hold or all fail (the invertible matrix theorem).
pub proof fn lemma_square_report_agrees(rank: nat, n: nat)
    ensures
        report_of(rank, n, n).is_one_to_one == report_of(rank, n, n).is_onto,
        report_of(rank, n, n).is_onto == report_of(rank, n, n).is_invertible,
{
}

/// A transformation between spaces of different dimensions is never
/// invertible.
pub proof fn lemma_non_square_not_invertible(rank: nat, m: nat, n: nat)
    requires
        m != n,
    ensures
        !report_of(rank, m, n).is_invertible,
{
}

/// The pigeonhole principle: since `rank(A) ≤ min(m, n)`, a map into a space
/// of smaller dimension (`n > m`) is never one-to-one, and a map from a space
/// of smaller dimension (`n < m`) is never onto.
pub proof fn lemma_dimension_bounds(rank: nat, m: nat, n: nat)
    requires
        rank <= m,
        rank <= n,
    ensures
        n > m ==> !report_of(rank, m, n).is_one_to_one,
        n < m ==> !report_of(rank, m, n).is_onto,
{
}

/// The report of `T` and of the transformation of the transposed matrix are
/// dual: `T_A` is one-to-one exactly when `T_{Aᵀ}` is onto (the transpose
/// has the same rank and swaps `m` and `n`).
pub proof fn lemma_transpose_duality(rank: nat, m: nat, n: nat)
    ensures
        report_of(rank, m, n).is_one_to_one == report_of(rank, n, m).is_onto,
        report_of(rank, m, n).is_onto == report_of(rank, n, m).is_one_to_one,
{
}

/// The pigeonhole principle read off an echelon form of an `m×n` matrix,
/// whose rank is its number of pivots: with more columns than rows
/// (`n > m`) the transformation is never one-to-one, and with more rows than
/// columns (`n < m`) it is never onto.
pub proof fn lemma_echelon_dimension_bounds(g: Seq<Seq<bool>>, n: usize)
    requires
        is_echelon(g, n as nat),
    ensures
        n > g.len() ==> !report_of(pivots_of(g).len(), g.len(), n as nat).is_one_to_one,
        n < g.len() ==> !report_of(pivots_of(g).len(), g.len(), n as nat).is_onto,
{
    lemma_echelon_rank_bounds(g, n);
    lemma_dimension_bounds(pivots_of(g).len(), g.len(), n as nat);
}

} // verus!
