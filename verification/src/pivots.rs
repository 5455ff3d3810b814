//! Pivots of an echelon form, and what they say about a matrix.
//!
//! Gaussian elimination leaves every nonzero row with a leading entry, its
//! pivot. Which entries count as nonzero is decided by the caller (with a
//! tolerance that suits its numbers); from those zero tests this module finds
//! the pivot of each row, the pivot columns, the free columns, and whether the
//! columns of a reduced matrix are distinct standard basis vectors.

use vstd::prelude::*;

verus! {

/// `p` is the first index at which `s` is `true`.
pub open spec fn leads_at(s: Seq<bool>, p: int) -> bool {
    &&& 0 <= p < s.len()
    &&& s[p]
    &&& forall|j: int| 0 <= j < p ==> !#[trigger] s[j]
}

/// The first index at which `s` is `true`, if any.
pub open spec fn first_true(s: Seq<bool>) -> Option<int> {
    if s.contains(true) {
        Some(choose|k: int| leads_at(s, k))
    } else {
        None
    }
}

/// The pivot of a row, the first of its entries that is not zero; `None` for
/// a zero row. `nonzero[j]` tells whether entry `j` is nonzero.
pub fn pivot_position(nonzero: &Vec<bool>) -> (r: Option<usize>)
    ensures
        match r {
            Some(p) => leads_at(nonzero@, p as int),
            None => !nonzero@.contains(true),
        },
{
    for j in 0..nonzero.len()
        invariant
            forall|k: int| 0 <= k < j ==> !#[trigger] nonzero@[k],
    {
        if nonzero[j] {
            return Some(j);
        }
    }
    None
}

/// The pivot columns of an echelon form, top to bottom: the pivot of every
/// nonzero row. `nonzero[i][j]` tells whether entry `(i, j)` is nonzero.
pub fn pivot_columns(nonzero: &Vec<Vec<bool>>) -> (r: Vec<usize>)
    ensures
        r@ == pivots_of(nonzero@.map_values(|row: Vec<bool>| row@)),
{
    let ghost g = nonzero@.map_values(|row: Vec<bool>| row@);
    let mut out: Vec<usize> = Vec::new();
    for i in 0..nonzero.len()
        invariant
            g == nonzero@.map_values(|row: Vec<bool>| row@),
            out@ == pivots_of(g.subrange(0, i as int)),
    {
        let ghost before = g.subrange(0, i as int);
        let ghost after = g.subrange(0, i + 1);
        assert(after.drop_last() =~= before);
        assert(after.last() == nonzero@[i as int]@);
        match pivot_position(&nonzero[i]) {
            Some(p) => {
                proof {
                    lemma_first_pivot(nonzero@[i as int]@, p as int);
                }
                out.push(p);
            },
            None => {},
        }
    }
    assert(g.subrange(0, nonzero@.len() as int) =~= g);
    out
}

/// The pivot columns of the rows of `g`, in row order.
pub open spec fn pivots_of(g: Seq<Seq<bool>>) -> Seq<usize>
    decreases g.len(),
{
    if g.len() == 0 {
        Seq::empty()
    } else {
        let rest = pivots_of(g.drop_last());
        match first_true(g.last()) {
            Some(p) => rest.push(p as usize),
            None => rest,
        }
    }
}

/// The first `true` of a row is the index that `pivot_position` finds.
proof fn lemma_first_pivot(s: Seq<bool>, p: int)
    requires
        leads_at(s, p),
    ensures
        first_true(s) == Some(p),
{
    assert(s.contains(true));
    let k = choose|k: int| leads_at(s, k);
    if k < p {
        assert(!s[k]);
    } else if p < k {
        assert(!s[p]);
    }
}

/// The columns `0..n` that are not pivot columns, in increasing order: the
/// free variables.
pub fn free_columns(pivots: &Vec<usize>, n: usize) -> (r: Vec<usize>)
    ensures
        forall|k: int| 0 <= k < r@.len() ==> #[trigger] r@[k] < n && !pivots@.contains(r@[k]),
        forall|k1: int, k2: int| 0 <= k1 < k2 < r@.len() ==> r@[k1] < r@[k2],
        forall|c: usize| c < n && !pivots@.contains(c) ==> #[trigger] r@.contains(c),
{
    let mut out: Vec<usize> = Vec::new();
    for c in 0..n
        invariant
            forall|k: int| 0 <= k < out@.len() ==> #[trigger] out@[k] < c && !pivots@.contains(
                out@[k],
            ),
            forall|k1: int, k2: int| 0 <= k1 < k2 < out@.len() ==> out@[k1] < out@[k2],
            forall|d: usize| d < c && !pivots@.contains(d) ==> #[trigger] out@.contains(d),
    {
        let mut is_pivot = false;
        for k in 0..pivots.len()
            invariant
                is_pivot == (exists|m: int| 0 <= m < k && #[trigger] pivots@[m] == c),
        {
            if pivots[k] == c {
                is_pivot = true;
                assert(pivots@[k as int] == c);
            }
        }
        assert(is_pivot == pivots@.contains(c));
        let ghost before = out@;
        if !is_pivot {
            out.push(c);
            assert forall|d: usize| d < c + 1 && !pivots@.contains(d) implies #[trigger] out@.contains(d) by {
                if d < c {
                    assert(before.contains(d));
                    let k = choose|k: int| 0 <= k < before.len() && before[k] == d;
                    assert(out@[k] == d);
                } else {
                    assert(out@[before.len() as int] == d);
                }
            }
        } else {
            assert forall|d: usize| d < c + 1 && !pivots@.contains(d) implies #[trigger] out@.contains(d) by {
                assert(d != c);
            }
        }
    }
    out
}

/// How an entry of a reduced matrix compares with the entries of a
/// standard basis vector.
#[derive(Debug, Clone, Copy, PartialEq, Eq, Structural)]
pub enum EntryClass {
    /// The entry is zero.
    Zero,
    /// The entry is one.
    One,
    /// The entry is neither.
    Other,
}

/// Column `col` is a standard basis vector: one entry is `One`, all the
/// others are `Zero`.
pub open spec fn is_unit_column(col: Seq<EntryClass>) -> bool {
    exists|p: int|
        0 <= p < col.len() && #[trigger] col[p] == EntryClass::One && forall|i: int|
            0 <= i < col.len() && i != p ==> col[i] == EntryClass::Zero
}

/// Every column is a standard basis vector and no two of them are equal: no
/// two columns have their `One` in the same row.
pub open spec fn distinct_unit_columns(cols: Seq<Seq<EntryClass>>) -> bool {
    &&& forall|j: int| 0 <= j < cols.len() ==> is_unit_column(#[trigger] cols[j])
    &&& forall|j1: int, j2: int, p: int|
        0 <= j1 < j2 < cols.len() && 0 <= p < cols[j1].len() && p < cols[j2].len() ==> !(
        #[trigger] cols[j1][p] == EntryClass::One && #[trigger] cols[j2][p] == EntryClass::One)
}

/// Whether the columns of a reduced matrix with `rows` rows are distinct
/// standard basis vectors `eᵢ`, which happens exactly when the vectors it was
/// built from are linearly independent. `columns[j][i]` classifies entry
/// `(i, j)`. With no column the answer is `true`.
pub fn columns_are_distinct_standard_vectors(columns: &Vec<Vec<EntryClass>>, rows: usize) -> (r:
    bool)
    requires
        forall|j: int| 0 <= j < columns@.len() ==> #[trigger] columns@[j]@.len() == rows,
    ensures
        r == distinct_unit_columns(columns@.map_values(|c: Vec<EntryClass>| c@)),
{
    let ghost cols = columns@.map_values(|c: Vec<EntryClass>| c@);
    let mut seen: Vec<bool> = Vec::new();
    for k in 0..rows
        invariant
            seen@.len() == k,
            forall|i: int| 0 <= i < k ==> !#[trigger] seen@[i],
    {
        seen.push(false);
    }
    let mut j: usize = 0;
    while j < columns.len()
        invariant
            j <= columns@.len(),
            cols == columns@.map_values(|c: Vec<EntryClass>| c@),
            forall|j: int| 0 <= j < columns@.len() ==> #[trigger] columns@[j]@.len() == rows,
            seen@.len() == rows,
            distinct_unit_columns(cols.subrange(0, j as int)),
            forall|p: int|
                0 <= p < rows ==> (#[trigger] seen@[p] <==> exists|k: int|
                    0 <= k < j && #[trigger] cols[k][p] == EntryClass::One),
        decreases columns@.len() - j,
    {
        let col = &columns[j];
        assert(cols[j as int] == col@);
        let mut pivot_row: Option<usize> = None;
        let mut i: usize = 0;
        while i < rows
            invariant
                i <= rows,
                col@.len() == rows,
                j < columns@.len(),
                cols == columns@.map_values(|c: Vec<EntryClass>| c@),
                cols[j as int] == col@,
                match pivot_row {
                    None => forall|k: int| 0 <= k < i ==> #[trigger] col@[k] == EntryClass::Zero,
                    Some(p) => p < i && col@[p as int] == EntryClass::One && forall|k: int|
                        0 <= k < i && k != p ==> #[trigger] col@[k] == EntryClass::Zero,
                },
            decreases rows - i,
        {
            let entry = col[i];
            if entry == EntryClass::Zero {
            } else if entry == EntryClass::One {
                if pivot_row.is_some() {
                    let p = pivot_row.unwrap();
                    proof {
                        lemma_two_ones_not_unit(col@, p as int, i as int);
                        assert(!is_unit_column(cols[j as int]));
                        assert(!distinct_unit_columns(cols));
                    }
                    return false;
                }
                pivot_row = Some(i);
            } else {
                proof {
                    assert(col@[i as int] == EntryClass::Other);
                    assert(!is_unit_column(cols[j as int]));
                    assert(!distinct_unit_columns(cols));
                }
                return false;
            }
            i = i + 1;
        }
        match pivot_row {
            None => {
                proof {
                    assert(!is_unit_column(cols[j as int]));
                    assert(!distinct_unit_columns(cols));
                }
                return false;
            },
            Some(p) => {
                if seen[p] {
                    proof {
                        let k = choose|k: int| 0 <= k < j && #[trigger] cols[k][p as int] == EntryClass::One;
                        assert(cols[k][p as int] == EntryClass::One);
                        assert(cols[j as int][p as int] == EntryClass::One);
                        assert(!distinct_unit_columns(cols));
                    }
                    return false;
                }
                let ghost before = seen@;
                seen.set(p, true);
                proof {
                    let done = cols.subrange(0, j + 1);
                    assert(is_unit_column(col@));
                    assert forall|j1: int, j2: int, q: int|
                        0 <= j1 < j2 < done.len() && 0 <= q < done[j1].len() && q < done[j2].len()
                        implies !(#[trigger] done[j1][q] == EntryClass::One && #[trigger] done[j2][q]
                        == EntryClass::One) by {
                        if j2 == j {
                            if q == p {
                                assert(!before[p as int]);
                                assert(cols[j1][q] != EntryClass::One);
                            } else {
                                assert(col@[q] == EntryClass::Zero);
                            }
                        } else {
                            assert(cols.subrange(0, j as int)[j1] == done[j1]);
                            assert(cols.subrange(0, j as int)[j2] == done[j2]);
                        }
                    }
                    assert forall|jj: int| 0 <= jj < done.len() implies is_unit_column(
                        #[trigger] done[jj],
                    ) by {
                        if jj < j {
                            assert(cols.subrange(0, j as int)[jj] == done[jj]);
                        }
                    }
                    assert forall|q: int|
                        0 <= q < rows implies (#[trigger] seen@[q] <==> exists|k: int|
                            0 <= k < j + 1 && #[trigger] cols[k][q] == EntryClass::One) by {
                        if q == p {
                            assert(cols[j as int][q] == EntryClass::One);
                        } else {
                            assert(cols[j as int][q] == EntryClass::Zero);
                            if exists|k: int| 0 <= k < j + 1 && #[trigger] cols[k][q] == EntryClass::One {
                                let k = choose|k: int| 0 <= k < j + 1 && #[trigger] cols[k][q] == EntryClass::One;
                                assert(k < j);
                            }
                        }
                    }
                }
            },
        }
        j = j + 1;
    }
    assert(cols.subrange(0, columns@.len() as int) =~= cols);
    true
}

/// A column with `One` at two rows is not a standard basis vector.
proof fn lemma_two_ones_not_unit(col: Seq<EntryClass>, a: int, b: int)
    requires
        0 <= a < col.len(),
        0 <= b < col.len(),
        a != b,
        col[a] == EntryClass::One,
        col[b] == EntryClass::One,
    ensures
        !is_unit_column(col),
{
    if is_unit_column(col) {
        let p = choose|p: int|
            0 <= p < col.len() && #[trigger] col[p] == EntryClass::One && forall|i: int|
                0 <= i < col.len() && i != p ==> col[i] == EntryClass::Zero;
        if p == a {
            assert(col[b] == EntryClass::Zero);
        } else {
            assert(col[a] == EntryClass::Zero);
        }
    }
}

/// The columns `0..n`, as a set.
pub open spec fn columns_below(n: usize) -> Set<usize> {
    Set::new(|c: usize| c < n)
}

/// There are `n` columns below `n`.
pub proof fn lemma_columns_below_len(n: usize)
    ensures
        columns_below(n).finite(),
        columns_below(n).len() == n,
    decreases n,
{
    if n == 0 {
        assert(columns_below(n) =~= Set::empty());
    } else {
        let m = (n - 1) as usize;
        lemma_columns_below_len(m);
        assert(columns_below(m).insert(m) =~= columns_below(n));
    }
}

/// Rank–nullity: when the pivot columns are distinct columns among `0..n`,
/// the free columns (as `free_columns` describes them) and the pivot columns
/// split `0..n` between them, every column lying in exactly one of the two,
/// so `rank + nullity = n`.
pub proof fn lemma_rank_nullity(pivots: Seq<usize>, free: Seq<usize>, n: usize)
    requires
        pivots.no_duplicates(),
        forall|k: int| 0 <= k < pivots.len() ==> #[trigger] pivots[k] < n,
        forall|k: int| 0 <= k < free.len() ==> #[trigger] free[k] < n && !pivots.contains(free[k]),
        forall|k1: int, k2: int| 0 <= k1 < k2 < free.len() ==> free[k1] < free[k2],
        forall|c: usize| c < n && !pivots.contains(c) ==> #[trigger] free.contains(c),
    ensures
        pivots.len() + free.len() == n,
        forall|c: usize| c < n ==> (#[trigger] pivots.contains(c) != free.contains(c)),
{
    let p = pivots.to_set();
    let f = free.to_set();
    assert(free.no_duplicates()) by {
        assert forall|i: int, j: int| 0 <= i < free.len() && 0 <= j < free.len() && i != j implies free[i]
            != free[j] by {
            if i < j {
                assert(free[i] < free[j]);
            } else {
                assert(free[j] < free[i]);
            }
        }
    }
    pivots.unique_seq_to_set();
    free.unique_seq_to_set();
    assert forall|c: usize| c < n implies (#[trigger] pivots.contains(c) != free.contains(c)) by {
        if pivots.contains(c) && free.contains(c) {
            let k = choose|k: int| 0 <= k < free.len() && free[k] == c;
            assert(!pivots.contains(free[k]));
        }
    }
    assert(p.disjoint(f)) by {
        assert forall|c: usize| p.contains(c) implies !f.contains(c) by {
            let k = choose|k: int| 0 <= k < pivots.len() && pivots[k] == c;
            assert(pivots[k] < n);
            assert(pivots.contains(c));
        }
    }
    assert(p + f =~= columns_below(n)) by {
        assert forall|c: usize| (p + f).contains(c) implies columns_below(n).contains(c) by {
            if p.contains(c) {
                let k = choose|k: int| 0 <= k < pivots.len() && pivots[k] == c;
                assert(pivots[k] < n);
            } else {
                let k = choose|k: int| 0 <= k < free.len() && free[k] == c;
                assert(free[k] < n);
            }
        }
        assert forall|c: usize| columns_below(n).contains(c) implies (p + f).contains(c) by {
            if !pivots.contains(c) {
                assert(free.contains(c));
            }
        }
    }
    vstd::seq_lib::seq_to_set_is_finite(pivots);
    vstd::seq_lib::seq_to_set_is_finite(free);
    vstd::set_lib::lemma_set_disjoint_lens(p, f);
    lemma_columns_below_len(n);
}

/// The zero tests of an echelon form with `n` columns: every row has `n`
/// entries, the zero rows come after all the nonzero ones, and the leading
/// entry of each nonzero row stands strictly to the right of the leading
/// entries of the rows above it.
pub open spec fn is_echelon(g: Seq<Seq<bool>>, n: nat) -> bool {
    &&& forall|i: int| 0 <= i < g.len() ==> #[trigger] g[i].len() == n
    &&& forall|i: int, k: int|
        0 <= i < k < g.len() && #[trigger] g[k].contains(true) ==> #[trigger] g[i].contains(true)
    &&& forall|i: int, k: int, p: int, q: int|
        0 <= i < k < g.len() && #[trigger] leads_at(g[i], p) && #[trigger] leads_at(g[k], q) ==> p < q
}

/// A row with a nonzero entry has a first one.
proof fn lemma_first_true_leads(s: Seq<bool>)
    requires
        s.contains(true),
    ensures
        first_true(s) is Some,
        leads_at(s, first_true(s)->0),
    decreases s.len(),
{
    let t = s.drop_last();
    if t.contains(true) {
        lemma_first_true_leads(t);
        let p = first_true(t)->0;
        assert forall|j: int| 0 <= j < p implies !#[trigger] s[j] by {
            assert(s[j] == t[j]);
        }
        assert(s[p] == t[p]);
        assert(leads_at(s, p));
    } else {
        assert forall|j: int| 0 <= j < s.len() - 1 implies !s[j] by {
            if s[j] {
                assert(t[j]);
            }
        }
        let k = choose|k: int| 0 <= k < s.len() && s[k] == true;
        if k < s.len() - 1 {
            assert(!s[k]);
        }
        assert(leads_at(s, s.len() - 1));
    }
}

/// The pivots of an echelon form are columns below `n`, each strictly to the
/// right of the one before; when the last row is nonzero, every row has a
/// pivot and row `k` has the `k`-th one.
proof fn lemma_echelon_pivots(g: Seq<Seq<bool>>, n: usize)
    requires
        is_echelon(g, n as nat),
    ensures
        forall|k: int| 0 <= k < pivots_of(g).len() ==> #[trigger] pivots_of(g)[k] < n,
        forall|k1: int, k2: int|
            0 <= k1 < k2 < pivots_of(g).len() ==> pivots_of(g)[k1] < pivots_of(g)[k2],
        g.len() > 0 && g.last().contains(true) ==> {
            &&& pivots_of(g).len() == g.len()
            &&& forall|k: int| 0 <= k < g.len() ==> #[trigger] leads_at(g[k], pivots_of(g)[k] as int)
        },
    decreases g.len(),
{
    if g.len() > 0 {
        let t = g.drop_last();
        assert forall|i: int| 0 <= i < t.len() implies #[trigger] t[i] == g[i] by {}
        assert(is_echelon(t, n as nat)) by {
            assert forall|i: int, k: int, p: int, q: int|
                0 <= i < k < t.len() && #[trigger] leads_at(t[i], p) && #[trigger] leads_at(t[k], q) implies p < q by {
                assert(t[i] == g[i] && t[k] == g[k]);
            }
            assert forall|i: int, k: int|
                0 <= i < k < t.len() && #[trigger] t[k].contains(true) implies #[trigger] t[i].contains(true) by {
                assert(t[i] == g[i] && t[k] == g[k]);
                assert(g[k].contains(true));
            }
        }
        lemma_echelon_pivots(t, n);
        let rest = pivots_of(t);
        let last = g.len() - 1;
        assert(g.last() == g[last]);
        if g.last().contains(true) {
            lemma_first_true_leads(g.last());
            let p = first_true(g.last())->0;
            assert(p < n);
            assert(pivots_of(g) == rest.push(p as usize));
            if t.len() > 0 {
                assert(g[last - 1].contains(true));
                assert(t.last() == g[last - 1]);
                assert forall|k: int| 0 <= k < rest.len() implies rest[k] < p by {
                    assert(leads_at(t[k], rest[k] as int));
                    assert(t[k] == g[k]);
                    assert(leads_at(g[last], p));
                }
            }
            assert forall|k: int| 0 <= k < g.len() implies #[trigger] leads_at(g[k], pivots_of(g)[k] as int) by {
                if k < last {
                    assert(leads_at(t[k], rest[k] as int));
                    assert(t[k] == g[k]);
                }
            }
        } else {
            assert(pivots_of(g) == rest);
        }
    }
}

/// Rank–nullity for an echelon form: its pivot columns are strictly
/// increasing columns below `n`, and with the free columns (as
/// `free_columns` describes them) they split the `n` columns, every column
/// lying in exactly one of the two; so `rank + nullity = n`.
pub proof fn lemma_echelon_rank_nullity(g: Seq<Seq<bool>>, n: usize, free: Seq<usize>)
    requires
        is_echelon(g, n as nat),
        forall|k: int| 0 <= k < free.len() ==> #[trigger] free[k] < n && !pivots_of(g).contains(free[k]),
        forall|k1: int, k2: int| 0 <= k1 < k2 < free.len() ==> free[k1] < free[k2],
        forall|c: usize| c < n && !pivots_of(g).contains(c) ==> #[trigger] free.contains(c),
    ensures
        forall|k: int| 0 <= k < pivots_of(g).len() ==> #[trigger] pivots_of(g)[k] < n,
        forall|k1: int, k2: int|
            0 <= k1 < k2 < pivots_of(g).len() ==> pivots_of(g)[k1] < pivots_of(g)[k2],
        pivots_of(g).len() + free.len() == n,
        forall|c: usize| c < n ==> (#[trigger] pivots_of(g).contains(c) != free.contains(c)),
{
    let pivots = pivots_of(g);
    lemma_echelon_pivots(g, n);
    assert(pivots.no_duplicates()) by {
        assert forall|i: int, j: int| 0 <= i < pivots.len() && 0 <= j < pivots.len() && i != j implies pivots[i]
            != pivots[j] by {
            if i < j {
                assert(pivots[i] < pivots[j]);
            } else {
                assert(pivots[j] < pivots[i]);
            }
        }
    }
    lemma_rank_nullity(pivots, free, n);
}

/// A grid has at most one pivot per row.
proof fn lemma_pivots_len(g: Seq<Seq<bool>>)
    ensures
        pivots_of(g).len() <= g.len(),
    decreases g.len(),
{
    if g.len() > 0 {
        lemma_pivots_len(g.drop_last());
    }
}

/// The rank of an echelon form is at most its number of rows and at most its
/// number of columns: `rank ≤ min(m, n)`.
pub proof fn lemma_echelon_rank_bounds(g: Seq<Seq<bool>>, n: usize)
    requires
        is_echelon(g, n as nat),
    ensures
        pivots_of(g).len() <= g.len(),
        pivots_of(g).len() <= n,
{
    lemma_pivots_len(g);
    lemma_echelon_pivots(g, n);
    let pivots = pivots_of(g);
    assert(pivots.no_duplicates()) by {
        assert forall|i: int, j: int| 0 <= i < pivots.len() && 0 <= j < pivots.len() && i != j implies pivots[i]
            != pivots[j] by {
            if i < j {
                assert(pivots[i] < pivots[j]);
            } else {
                assert(pivots[j] < pivots[i]);
            }
        }
    }
    pivots.unique_seq_to_set();
    assert(pivots.to_set().subset_of(columns_below(n))) by {
        assert forall|c: usize| pivots.to_set().contains(c) implies columns_below(n).contains(c) by {
            let k = choose|k: int| 0 <= k < pivots.len() && pivots[k] == c;
            assert(pivots[k] < n);
        }
    }
    lemma_columns_below_len(n);
    vstd::set_lib::lemma_len_subset(pivots.to_set(), columns_below(n));
}

/// How the pivot list grows row by row: a grid with no row has no pivot, a
/// zero row adds nothing, and a row whose first nonzero entry is at `p` adds
/// `p` at the end.
pub proof fn lemma_pivots_of_push(g: Seq<Seq<bool>>, row: Seq<bool>, p: int)
    ensures
        pivots_of(Seq::<Seq<bool>>::empty()) == Seq::<usize>::empty(),
        !row.contains(true) ==> pivots_of(g.push(row)) == pivots_of(g),
        leads_at(row, p) ==> pivots_of(g.push(row)) == pivots_of(g).push(p as usize),
{
    assert(g.push(row).drop_last() =~= g);
    assert(g.push(row).last() == row);
    if leads_at(row, p) {
        lemma_first_pivot(row, p);
    }
}

/// The columns of the `n×n` identity, classified, are distinct standard
/// basis vectors; a column with an entry that is neither zero nor one is not
/// a standard basis vector; and two columns with their one in the same row
/// are not distinct.
pub proof fn lemma_unit_columns(n: nat, col: Seq<EntryClass>, other: Seq<EntryClass>, p: int)
    ensures
        distinct_unit_columns(
            Seq::new(
                n,
                |j: int|
                    Seq::new(
                        n,
                        |i: int|
                            if i == j {
                                EntryClass::One
                            } else {
                                EntryClass::Zero
                            },
                    ),
            ),
        ),
        col.contains(EntryClass::Other) ==> !is_unit_column(col),
        0 <= p < col.len() && p < other.len() && col[p] == EntryClass::One && other[p]
            == EntryClass::One ==> !distinct_unit_columns(seq![col, other]),
{
    let id = Seq::new(
        n,
        |j: int| Seq::new(n, |i: int| if i == j { EntryClass::One } else { EntryClass::Zero }),
    );
    assert forall|j: int| 0 <= j < id.len() implies is_unit_column(#[trigger] id[j]) by {
        assert(id[j][j] == EntryClass::One);
    }
    if col.contains(EntryClass::Other) && is_unit_column(col) {
        let k = choose|k: int| 0 <= k < col.len() && col[k] == EntryClass::Other;
        let q = choose|q: int|
            0 <= q < col.len() && #[trigger] col[q] == EntryClass::One && forall|i: int|
                0 <= i < col.len() && i != q ==> col[i] == EntryClass::Zero;
        assert(col[k] == EntryClass::Other);
    }
    let two = seq![col, other];
    if 0 <= p < col.len() && p < other.len() && col[p] == EntryClass::One && other[p] == EntryClass::One {
        assert(two[0][p] == EntryClass::One && two[1][p] == EntryClass::One);
    }
}

} // verus!
