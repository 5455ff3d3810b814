use linear_algebra_101::pivots::{
    columns_are_distinct_standard_vectors, free_columns, pivot_columns, pivot_position, EntryClass,
};

const EPS: f64 = 1e-9;

fn nonzero_grid(rows: &[&[f64]]) -> Vec<Vec<bool>> {
    rows.iter().map(|r| r.iter().map(|v| v.abs() > EPS).collect()).collect()
}

#[test]
fn pivot_position_finds_the_leading_entry() {
    assert_eq!(pivot_position(&vec![false, true, true]), Some(1));
    assert_eq!(pivot_position(&vec![true]), Some(0));
    assert_eq!(pivot_position(&vec![false, false]), None);
    assert_eq!(pivot_position(&vec![]), None);
}

#[test]
fn rank_nullity_and_columns_characterize_structure() {
    // Echelon forms of the textbook cases: (rows, cols, rank, pivots, free).
    let cases: Vec<(Vec<Vec<bool>>, usize, usize, Vec<usize>, Vec<usize>)> = vec![
        (
            nonzero_grid(&[&[1.0, 0.0, 0.0], &[0.0, 1.0, 0.0], &[0.0, 0.0, 1.0]]),
            3,
            3,
            vec![0, 1, 2],
            vec![],
        ),
        (nonzero_grid(&[&[0.0, 0.0, 0.0], &[0.0, 0.0, 0.0]]), 3, 0, vec![], vec![0, 1, 2]),
        (
            nonzero_grid(&[&[1.0, 2.0, 0.0, 3.0], &[0.0, 0.0, 1.0, 4.0]]),
            4,
            2,
            vec![0, 2],
            vec![1, 3],
        ),
        (nonzero_grid(&[&[2.0, 4.0], &[0.0, 0.0]]), 2, 1, vec![0], vec![1]),
        (nonzero_grid(&[&[1.0, 2.0, 3.0]]), 3, 1, vec![0], vec![1, 2]),
        (nonzero_grid(&[&[1.0, 1.0], &[0.0, 1e-17]]), 2, 1, vec![0], vec![1]),
    ];
    for (grid, cols, want_rank, want_pivots, want_free) in cases {
        let pivots = pivot_columns(&grid);
        assert_eq!(pivots.len(), want_rank, "rank of {grid:?}");
        assert_eq!(pivots, want_pivots, "pivot columns of {grid:?}");
        let free = free_columns(&pivots, cols);
        assert_eq!(free, want_free, "free columns of {grid:?}");
        assert_eq!(free.len(), cols - want_rank, "nullity of {grid:?}");
    }
}

#[test]
fn pivot_and_free_columns_partition() {
    let pivots = vec![1, 4, 5];
    let free = free_columns(&pivots, 7);
    assert_eq!(free, vec![0, 2, 3, 6]);
    let mut covered = vec![0; 7];
    for c in pivots.iter().chain(free.iter()) {
        covered[*c] += 1;
    }
    assert!(covered.iter().all(|&n| n == 1));

    // Echelon forms: increasing pivots, and pivots and free columns cover the
    // columns once each.
    let cases: Vec<(Vec<Vec<bool>>, usize)> = vec![
        (nonzero_grid(&[&[1.0, 2.0, 0.0, 3.0], &[0.0, 0.0, 1.0, 4.0]]), 4),
        (nonzero_grid(&[&[0.0, 0.0, 0.0], &[0.0, 0.0, 0.0]]), 3),
        (nonzero_grid(&[&[1.0, 0.0, 0.0], &[0.0, 1.0, 0.0], &[0.0, 0.0, 1.0]]), 3),
    ];
    let expected = [(vec![0, 2], vec![1, 3]), (vec![], vec![0, 1, 2]), (vec![0, 1, 2], vec![])];
    for ((grid, cols), (want_p, want_f)) in cases.into_iter().zip(expected) {
        let p = pivot_columns(&grid);
        let f = free_columns(&p, cols);
        assert_eq!(p, want_p);
        assert_eq!(f, want_f);
        assert!(p.windows(2).all(|w| w[0] < w[1]));
        assert_eq!(p.len() + f.len(), cols);
        for c in 0..cols {
            assert!(p.contains(&c) != f.contains(&c));
        }
    }
}

fn classify(x: f64) -> EntryClass {
    if x.abs() <= EPS {
        EntryClass::Zero
    } else if (x - 1.0).abs() <= EPS {
        EntryClass::One
    } else {
        EntryClass::Other
    }
}

/// The columns of a reduced matrix given by its rows.
fn column_classes(rref: &[&[f64]]) -> Vec<Vec<EntryClass>> {
    let cols = rref.first().map_or(0, |r| r.len());
    (0..cols)
        .map(|j| rref.iter().map(|row| classify(row[j])).collect())
        .collect()
}

#[test]
fn rref_columns_are_distinct_standard_vectors_known_cases() {
    // The reduced forms of the textbook cases, with the expected answers.
    let cases: Vec<(Vec<Vec<EntryClass>>, usize, bool)> = vec![
        (vec![], 2, true),
        (column_classes(&[&[1.0, 0.0], &[0.0, 1.0]]), 2, true),
        // [1 1; 1 −1] reduces to the identity.
        (column_classes(&[&[1.0, 0.0], &[0.0, 1.0]]), 2, true),
        // [1 2; 2 4] reduces to [1 2; 0 0]: the second column is (2, 0).
        (column_classes(&[&[1.0, 2.0], &[0.0, 0.0]]), 2, false),
        // Three coplanar vectors: [1 0 1; 0 1 1].
        (column_classes(&[&[1.0, 0.0, 1.0], &[0.0, 1.0, 1.0]]), 2, false),
        // Both columns reduce to e₀.
        (column_classes(&[&[1.0, 1.0], &[0.0, 0.0]]), 2, false),
        // The zero vector.
        (column_classes(&[&[0.0], &[0.0]]), 2, false),
        // A single nonzero vector reduces to e₀.
        (column_classes(&[&[1.0], &[0.0]]), 2, true),
    ];
    for (columns, rows, want) in cases {
        assert_eq!(
            columns_are_distinct_standard_vectors(&columns, rows),
            want,
            "columns {columns:?}"
        );
    }
}

#[test]
fn distinct_standard_vectors_in_any_order() {
    // e₁, e₀, e₂ is a permutation: still distinct standard vectors.
    let columns = vec![
        vec![EntryClass::Zero, EntryClass::One, EntryClass::Zero],
        vec![EntryClass::One, EntryClass::Zero, EntryClass::Zero],
        vec![EntryClass::Zero, EntryClass::Zero, EntryClass::One],
    ];
    assert!(columns_are_distinct_standard_vectors(&columns, 3));
    // Two ones in a column make it no standard vector.
    let two_ones = vec![vec![EntryClass::One, EntryClass::One]];
    assert!(!columns_are_distinct_standard_vectors(&two_ones, 2));
}

#[test]
fn rank_is_at_most_rows_and_columns() {
    let wide = nonzero_grid(&[&[1.0, 2.0, 3.0], &[0.0, 4.0, 5.0]]);
    assert_eq!(pivot_columns(&wide).len(), 2);
    let tall = nonzero_grid(&[&[1.0, 2.0], &[0.0, 3.0], &[0.0, 0.0]]);
    assert_eq!(pivot_columns(&tall).len(), 2);
    let flat = nonzero_grid(&[&[0.0, 0.0, 7.0]]);
    assert_eq!(pivot_columns(&flat), vec![2]);
}
