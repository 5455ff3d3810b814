//! Linear systems `Ax = b`: what a row of the system says, and what a reduced
//! augmented matrix says about the solutions.
//!
//! Whether an entry counts as zero is decided by the caller (with whatever
//! tolerance suits its numbers); what follows from those zero tests is
//! decided here.

use vstd::prelude::*;

use crate::pivots::{columns_below, lemma_columns_below_len, leads_at};

verus! {

/// The kind of one row `a₁x₁ + … + aₙxₙ = c` of a linear system.
#[derive(Debug, Clone, Copy, PartialEq, Eq, Structural)]
pub enum RowKind {
    /// Some coefficient is not zero: a genuine constraint.
    Normal,
    /// All coefficients and the constant are zero: `0 = 0`, no constraint.
    Redundant,
    /// All coefficients are zero but the constant is not: `0 = c`, no solution.
    Contradictory,
}

impl RowKind {
    /// The human-readable name of the kind, with the shape of such a row.
    pub open spec fn name(self) -> Seq<char> {
        match self {
            RowKind::Normal => "normal"@,
            RowKind::Redundant => "redundant (0 = 0)"@,
            RowKind::Contradictory => "contradictory (0 = c)"@,
        }
    }

    /// Writes the name of the kind as a `String`.
    #[allow(clippy::inherent_to_string)]
    pub fn to_string(&self) -> (s: String)
        ensures
            s@ == self.name(),
    {
        match self {
            RowKind::Normal => String::from_str("normal"),
            RowKind::Redundant => String::from_str("redundant (0 = 0)"),
            RowKind::Contradictory => String::from_str("contradictory (0 = c)"),
        }
    }
}

/// The kind of a row whose coefficients are nonzero exactly where
/// `coefficient_nonzero` is `true`, and whose constant is nonzero exactly when
/// `constant_nonzero` is.
pub fn classify_row(coefficient_nonzero: &Vec<bool>, constant_nonzero: bool) -> (k: RowKind)
    ensures
        (k == RowKind::Normal) <==> coefficient_nonzero@.contains(true),
        (k == RowKind::Redundant) <==> !coefficient_nonzero@.contains(true) && !constant_nonzero,
        (k == RowKind::Contradictory) <==> !coefficient_nonzero@.contains(true)
            && constant_nonzero,
{
    for i in 0..coefficient_nonzero.len()
        invariant
            forall|k: int| 0 <= k < i ==> !#[trigger] coefficient_nonzero@[k],
    {
        if coefficient_nonzero[i] {
            assert(coefficient_nonzero@[i as int]);
            return RowKind::Normal;
        }
    }
    if constant_nonzero {
        RowKind::Contradictory
    } else {
        RowKind::Redundant
    }
}

/// Whether some row of the system is contradictory (`0 = c`).
///
/// This only sees contradictions written out in a single row; a system can be
/// inconsistent without one (compare the rank of `A` with that of `[A | b]`).
pub fn has_contradictory_row(kinds: &Vec<RowKind>) -> (r: bool)
    ensures
        r == kinds@.contains(RowKind::Contradictory),
{
    for i in 0..kinds.len()
        invariant
            forall|k: int| 0 <= k < i ==> #[trigger] kinds@[k] != RowKind::Contradictory,
    {
        if kinds[i] == RowKind::Contradictory {
            assert(kinds@[i as int] == RowKind::Contradictory);
            return true;
        }
    }
    false
}

/// The solution set of a linear system, by kind.
#[derive(Debug)]
pub enum Solution<V> {
    /// No solution.
    Inconsistent,
    /// Exactly one solution, given.
    Unique(V),
    /// Infinitely many solutions (some variable is free).
    Infinite,
}

/// The number of rows that have a pivot.
pub open spec fn pivot_count(pivots: Seq<Option<usize>>) -> nat
    decreases pivots.len(),
{
    if pivots.len() == 0 {
        0
    } else {
        pivot_count(pivots.drop_last()) + if pivots.last() is Some {
            1nat
        } else {
            0nat
        }
    }
}

/// Row `i` has its pivot in column `c`, and no later row does.
pub open spec fn last_pivot_row(pivots: Seq<Option<usize>>, i: int, c: usize) -> bool {
    &&& 0 <= i < pivots.len()
    &&& pivots[i] == Some(c)
    &&& forall|k: int| i < k < pivots.len() ==> pivots[k] != Some(c)
}

/// Reads the solutions of `Ax = b` off the reduced augmented matrix `[A | b]`
/// of `n` unknowns: `pivots[i]` is the pivot column of row `i` (`None` for a
/// zero row) and `constants[i]` is its entry in the last column.
///
/// - A pivot in the constant column `n` is a row `0 = 1`: no solution.
/// - Otherwise, fewer pivot rows than unknowns leaves a free variable:
///   infinitely many solutions.
/// - Otherwise the pivot of each row fixes its unknown to the constant of the
///   row; an unknown that no row fixes stays `zero`.
pub fn read_solution<T: Copy>(
    pivots: &Vec<Option<usize>>,
    constants: &Vec<T>,
    n: usize,
    zero: T,
) -> (s: Solution<Vec<T>>)
    requires
        pivots@.len() == constants@.len(),
        forall|i: int| 0 <= i < pivots@.len() && #[trigger] pivots@[i] is Some ==> pivots@[i]->0 <= n,
    ensures
        (s is Inconsistent) <==> pivots@.contains(Some(n)),
        (s is Infinite) <==> !pivots@.contains(Some(n)) && pivot_count(pivots@) < n,
        (s is Unique) <==> !pivots@.contains(Some(n)) && pivot_count(pivots@) >= n,
        (s is Infinite) <==> !pivots@.contains(Some(n)) && pivots@.filter(
            |p: Option<usize>| p is Some,
        ).len() < n,
        (s is Unique) <==> !pivots@.contains(Some(n)) && pivots@.filter(
            |p: Option<usize>| p is Some,
        ).len() >= n,
        s matches Solution::Unique(x) ==> {
            &&& x@.len() == n
            &&& forall|i: int, c: usize| #[trigger]
                last_pivot_row(pivots@, i, c) && c < n ==> x@[c as int] == constants@[i]
            &&& forall|c: usize|
                c < n && !#[trigger] pivots@.contains(Some(c)) ==> x@[c as int] == zero
        },
{
    let mut coords: Vec<T> = Vec::new();
    for k in 0..n
        invariant
            coords@.len() == k,
            forall|j: int| 0 <= j < k ==> #[trigger] coords@[j] == zero,
    {
        coords.push(zero);
    }
    let mut rank: usize = 0;
    let mut i: usize = 0;
    while i < pivots.len()
        invariant
            i <= pivots@.len(),
            pivots@.len() == constants@.len(),
            forall|i: int| 0 <= i < pivots@.len() && #[trigger] pivots@[i] is Some ==> pivots@[i]->0 <= n,
            coords@.len() == n,
            rank == pivot_count(pivots@.subrange(0, i as int)),
            rank <= i,
            !pivots@.subrange(0, i as int).contains(Some(n)),
            forall|c: usize|
                c < n && !#[trigger] pivots@.subrange(0, i as int).contains(Some(c))
                    ==> coords@[c as int] == zero,
            forall|j: int, c: usize| #[trigger]
                last_pivot_row(pivots@.subrange(0, i as int), j, c) && c < n
                    ==> coords@[c as int] == constants@[j],
        decreases pivots@.len() - i,
    {
        let ghost before = pivots@.subrange(0, i as int);
        let ghost after = pivots@.subrange(0, i + 1);
        assert(after.drop_last() =~= before);
        assert(after.last() == pivots@[i as int]);
        match pivots[i] {
            None => {
                assert forall|c: usize|
                    c < n && !#[trigger] after.contains(Some(c)) implies coords@[c as int] == zero by {
                    if before.contains(Some(c)) {
                        let k = choose|k: int| 0 <= k < before.len() && before[k] == Some(c);
                        assert(after[k] == Some(c));
                    }
                }
                assert forall|j: int, c: usize| #[trigger]
                    last_pivot_row(after, j, c) && c < n implies coords@[c as int] == constants@[j] by {
                    assert(j < i);
                    assert(last_pivot_row(before, j, c));
                }
                assert(!after.contains(Some(n))) by {
                    if after.contains(Some(n)) {
                        let k = choose|k: int| 0 <= k < after.len() && after[k] == Some(n);
                        assert(before[k] == Some(n));
                    }
                }
            },
            Some(pc) => {
                if pc == n {
                    assert(pivots@[i as int] == Some(n));
                    return Solution::Inconsistent;
                }
                let ghost old_coords = coords@;
                coords.set(pc, constants[i]);
                rank = rank + 1;
                assert forall|c: usize|
                    c < n && !#[trigger] after.contains(Some(c)) implies coords@[c as int] == zero by {
                    assert(after[i as int] == Some(pc));
                    if before.contains(Some(c)) {
                        let k = choose|k: int| 0 <= k < before.len() && before[k] == Some(c);
                        assert(after[k] == Some(c));
                    }
                }
                assert forall|j: int, c: usize| #[trigger]
                    last_pivot_row(after, j, c) && c < n implies coords@[c as int] == constants@[j] by {
                    if j == i {
                        assert(c == pc);
                    } else {
                        assert(c != pc);
                        assert(last_pivot_row(before, j, c));
                    }
                }
                assert(!after.contains(Some(n))) by {
                    if after.contains(Some(n)) {
                        let k = choose|k: int| 0 <= k < after.len() && after[k] == Some(n);
                        if k < i {
                            assert(before[k] == Some(n));
                        }
                    }
                }
            },
        }
        i = i + 1;
    }
    assert(pivots@.subrange(0, pivots@.len() as int) =~= pivots@);
    proof {
        lemma_pivot_count_counts_pivot_rows(pivots@);
    }
    if rank < n {
        Solution::Infinite
    } else {
        Solution::Unique(coords)
    }
}

/// In an augmented row `[a₁ … aₙ | c]`, the pivot falls on the constant
/// column exactly when the row is contradictory (`0 = c` with `c ≠ 0`): a
/// pivot in the last column of a reduced `[A | b]` is a row with no solution.
pub proof fn lemma_constant_pivot_is_contradiction(coefficient_nonzero: Seq<bool>, constant_nonzero: bool)
    ensures
        leads_at(coefficient_nonzero.push(constant_nonzero), coefficient_nonzero.len() as int) <==> (
        !coefficient_nonzero.contains(true) && constant_nonzero),
{
    let row = coefficient_nonzero.push(constant_nonzero);
    let n = coefficient_nonzero.len() as int;
    assert forall|j: int| 0 <= j < n implies #[trigger] row[j] == coefficient_nonzero[j] by {}
    if leads_at(row, n) && coefficient_nonzero.contains(true) {
        let i = choose|i: int| 0 <= i < coefficient_nonzero.len() && coefficient_nonzero[i] == true;
        assert(row[i]);
    }
}

/// The number of pivots is the number of rows that have one: each row with a
/// pivot counts once, a zero row not at all.
pub proof fn lemma_pivot_count_counts_pivot_rows(pivots: Seq<Option<usize>>)
    ensures
        pivot_count(pivots) == pivots.filter(|p: Option<usize>| p is Some).len(),
        pivot_count(pivots) <= pivots.len(),
        forall|c: usize| #[trigger] pivot_count(pivots.push(Some(c))) == pivot_count(pivots) + 1,
        pivot_count(pivots.push(None)) == pivot_count(pivots),
    decreases pivots.len(),
{
    assert forall|c: usize| #[trigger] pivot_count(pivots.push(Some(c))) == pivot_count(pivots) + 1 by {
        assert(pivots.push(Some(c)).drop_last() =~= pivots);
    }
    assert(pivots.push(None::<usize>).drop_last() =~= pivots);
    if pivots.len() > 0 {
        lemma_pivot_count_counts_pivot_rows(pivots.drop_last());
        reveal(Seq::filter);
    }
}

/// In a reduced augmented matrix the rows pivot on distinct columns. Then
/// with every pivot on an unknown (`< n`), the system has as many pivots as
/// unknowns exactly when every unknown is some row's pivot column: a unique
/// solution pins every unknown, and an unknown that no row pins makes the
/// solutions infinitely many.
pub proof fn lemma_full_rank_pins_every_unknown(pivots: Seq<Option<usize>>, n: usize)
    requires
        forall|i: int| 0 <= i < pivots.len() && #[trigger] pivots[i] is Some ==> pivots[i]->0 < n,
        forall|i: int, j: int|
            0 <= i < pivots.len() && 0 <= j < pivots.len() && i != j && #[trigger] pivots[i] is Some
                && #[trigger] pivots[j] is Some ==> pivots[i] != pivots[j],
    ensures
        pivot_count(pivots) <= n,
        pivot_count(pivots) >= n <==> forall|c: usize| c < n ==> #[trigger] pivots.contains(Some(c)),
{
    let cols = pinned_columns(pivots);
    lemma_pinned_columns(pivots);
    lemma_columns_below_len(n);
    assert(cols.subset_of(columns_below(n))) by {
        assert forall|c: usize| cols.contains(c) implies columns_below(n).contains(c) by {
            let k = choose|k: int| 0 <= k < pivots.len() && pivots[k] == Some(c);
            assert(pivots[k] is Some);
        }
    }
    vstd::set_lib::lemma_len_subset(cols, columns_below(n));
    if pivot_count(pivots) >= n {
        assert forall|c: usize| c < n implies #[trigger] pivots.contains(Some(c)) by {
            if !pivots.contains(Some(c)) {
                assert(cols.subset_of(columns_below(n).remove(c))) by {
                    assert forall|d: usize| cols.contains(d) implies columns_below(n).remove(c).contains(d) by {
                        if d == c {
                            assert(pivots.contains(Some(c)));
                        }
                    }
                }
                vstd::set_lib::lemma_len_subset(cols, columns_below(n).remove(c));
            }
        }
    }
    if forall|c: usize| c < n ==> #[trigger] pivots.contains(Some(c)) {
        assert(columns_below(n).subset_of(cols)) by {
            assert forall|c: usize| columns_below(n).contains(c) implies cols.contains(c) by {
                assert(pivots.contains(Some(c)));
            }
        }
        vstd::set_lib::lemma_len_subset(columns_below(n), cols);
    }
}

/// The columns that some row pivots on.
spec fn pinned_columns(pivots: Seq<Option<usize>>) -> Set<usize> {
    Set::new(|c: usize| pivots.contains(Some(c)))
}

/// With distinct pivot columns, there are as many pinned columns as pivots.
proof fn lemma_pinned_columns(pivots: Seq<Option<usize>>)
    requires
        forall|i: int, j: int|
            0 <= i < pivots.len() && 0 <= j < pivots.len() && i != j && #[trigger] pivots[i] is Some
                && #[trigger] pivots[j] is Some ==> pivots[i] != pivots[j],
    ensures
        pinned_columns(pivots).finite(),
        pinned_columns(pivots).len() == pivot_count(pivots),
    decreases pivots.len(),
{
    if pivots.len() == 0 {
        assert(pinned_columns(pivots) =~= Set::empty());
    } else {
        let t = pivots.drop_last();
        assert forall|i: int| 0 <= i < t.len() implies #[trigger] t[i] == pivots[i] by {}
        lemma_pinned_columns(t);
        match pivots.last() {
            Some(c) => {
                assert(!pinned_columns(t).contains(c)) by {
                    if t.contains(Some(c)) {
                        let k = choose|k: int| 0 <= k < t.len() && t[k] == Some(c);
                        assert(pivots[k] is Some && pivots[pivots.len() - 1] is Some);
                    }
                }
                assert(pinned_columns(pivots) =~= pinned_columns(t).insert(c)) by {
                    assert forall|d: usize| pinned_columns(pivots).contains(d) implies pinned_columns(t).insert(c).contains(d) by {
                        if d != c {
                            let k = choose|k: int| 0 <= k < pivots.len() && pivots[k] == Some(d);
                            assert(k < t.len());
                            assert(t[k] == Some(d));
                        }
                    }
                    assert forall|d: usize| pinned_columns(t).insert(c).contains(d) implies pinned_columns(pivots).contains(d) by {
                        if d == c {
                            assert(pivots[pivots.len() - 1] == Some(c));
                        } else {
                            let k = choose|k: int| 0 <= k < t.len() && t[k] == Some(d);
                            assert(pivots[k] == Some(d));
                        }
                    }
                }
            },
            None => {
                assert(pinned_columns(pivots) =~= pinned_columns(t)) by {
                    assert forall|d: usize| pinned_columns(pivots).contains(d) implies pinned_columns(t).contains(d) by {
                        let k = choose|k: int| 0 <= k < pivots.len() && pivots[k] == Some(d);
                        assert(k < t.len());
                        assert(t[k] == Some(d));
                    }
                    assert forall|d: usize| pinned_columns(t).contains(d) implies pinned_columns(pivots).contains(d) by {
                        let k = choose|k: int| 0 <= k < t.len() && t[k] == Some(d);
                        assert(pivots[k] == Some(d));
                    }
                }
            },
        }
    }
}

/// When the rows pivot on distinct columns, as in a reduced matrix, the row
/// that fixes unknown `c` is simply the row whose pivot is `c`: so in a
/// unique solution `x[c]` is the constant of the row that pivots on `c`.
pub proof fn lemma_distinct_pivot_rows(pivots: Seq<Option<usize>>, i: int, c: usize)
    requires
        forall|a: int, b: int|
            0 <= a < pivots.len() && 0 <= b < pivots.len() && a != b && #[trigger] pivots[a] is Some
                && #[trigger] pivots[b] is Some ==> pivots[a] != pivots[b],
    ensures
        last_pivot_row(pivots, i, c) <==> (0 <= i < pivots.len() && pivots[i] == Some(c)),
{
    if 0 <= i < pivots.len() && pivots[i] == Some(c) {
        assert forall|k: int| i < k < pivots.len() implies pivots[k] != Some(c) by {
            if pivots[k] == Some(c) {
                assert(pivots[i] is Some && pivots[k] is Some);
            }
        }
    }
}

} // verus!
