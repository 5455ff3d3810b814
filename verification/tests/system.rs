use linear_algebra_101::system::{classify_row, has_contradictory_row, read_solution, RowKind, Solution};

/// The nonzero pattern of a row, with a tolerance of `epsilon`.
fn nonzero(values: &[f64], epsilon: f64) -> Vec<bool> {
    values.iter().map(|v| v.abs() > epsilon).collect()
}

fn kind(coeffs: &[f64], constant: f64, epsilon: f64) -> RowKind {
    classify_row(&nonzero(coeffs, epsilon), constant.abs() > epsilon)
}

#[test]
fn classify_row_labels_each_kind() {
    assert_eq!(kind(&[1.0, 2.0], 3.0, 0.0), RowKind::Normal);
    assert_eq!(kind(&[0.0, 0.0], 0.0, 0.0), RowKind::Redundant);
    assert_eq!(kind(&[0.0, 0.0], 5.0, 0.0), RowKind::Contradictory);
    assert_eq!(kind(&[-1.0, 0.0], 0.0, 0.0), RowKind::Normal);
    assert_eq!(kind(&[0.0, 0.0], -5.0, 0.0), RowKind::Contradictory);
}

#[test]
fn classify_row_judges_zero_within_epsilon() {
    assert_eq!(kind(&[1e-12, 0.0], 0.0, 1e-9), RowKind::Redundant);
    assert_eq!(kind(&[1e-12, 0.0], 0.0, 0.0), RowKind::Normal);
    assert_eq!(kind(&[0.0, 0.0], 1e-12, 1e-9), RowKind::Redundant);
    assert_eq!(kind(&[0.0, 0.0], 1e-12, 0.0), RowKind::Contradictory);
}

#[test]
fn classify_row_of_empty_row_depends_on_constant() {
    assert_eq!(classify_row(&vec![], false), RowKind::Redundant);
    assert_eq!(classify_row(&vec![], true), RowKind::Contradictory);
}

#[test]
fn has_contradictory_row_detects_explicit_contradiction() {
    // [1 2 | 3; 0 0 | 5]: the second row says 0 = 5.
    let with_contradiction = vec![kind(&[1.0, 2.0], 3.0, 0.0), kind(&[0.0, 0.0], 5.0, 0.0)];
    assert!(has_contradictory_row(&with_contradiction));

    let all_normal = vec![kind(&[1.0, 2.0], 5.0, 0.0), kind(&[3.0, 4.0], 6.0, 0.0)];
    assert!(!has_contradictory_row(&all_normal));

    let redundant = vec![kind(&[1.0, 2.0], 3.0, 0.0), kind(&[0.0, 0.0], 0.0, 0.0)];
    assert!(!has_contradictory_row(&redundant));
}

#[test]
fn has_contradictory_row_misses_hidden_contradiction() {
    // x + y = 2, x + y = 3: no single row is 0 = c before elimination.
    let hidden = vec![kind(&[1.0, 1.0], 2.0, 0.0), kind(&[1.0, 1.0], 3.0, 0.0)];
    assert!(!has_contradictory_row(&hidden));
}

#[test]
fn row_kind_display_spells_out_each_kind() {
    assert_eq!(RowKind::Normal.to_string(), "normal");
    assert_eq!(RowKind::Redundant.to_string(), "redundant (0 = 0)");
    assert_eq!(RowKind::Contradictory.to_string(), "contradictory (0 = c)");
}

#[test]
fn solve_finds_unique_solution() {
    // 2x + y = 5, x + y = 3 reduces to [1 0 | 2; 0 1 | 1].
    let pivots = vec![Some(0), Some(1)];
    let Solution::Unique(x) = read_solution(&pivots, &vec![2.0, 1.0], 2, 0.0) else {
        panic!("an invertible system has a unique solution");
    };
    assert_eq!(x, vec![2.0, 1.0]);

    // An over-determined but consistent system: [1 0 | 2; 0 1 | 3; 0 0 | 0].
    let pivots = vec![Some(0), Some(1), None];
    let Solution::Unique(x) = read_solution(&pivots, &vec![2.0, 3.0, 0.0], 2, 0.0) else {
        panic!("a consistent over-determined system has a unique solution");
    };
    assert_eq!(x, vec![2.0, 3.0]);
}

#[test]
fn solve_finds_unique_solution_of_invertible_3x3() {
    // [1 2 3; 0 1 4; 5 6 0]·x = [6, 5, 11], built as A·[1, 1, 1], reduces to
    // [I | 1, 1, 1].
    let pivots = vec![Some(0), Some(1), Some(2)];
    let Solution::Unique(x) = read_solution(&pivots, &vec![1.0, 1.0, 1.0], 3, 0.0) else {
        panic!("an invertible 3x3 system has a unique solution");
    };
    assert_eq!(x, vec![1.0, 1.0, 1.0]);
}

#[test]
fn solve_reports_inconsistent() {
    // x + y = 2, x + y = 3 reduces to [1 1 | 0; 0 0 | 1].
    let pivots = vec![Some(0), Some(2)];
    assert!(matches!(
        read_solution(&pivots, &vec![0.0, 1.0], 2, 0.0),
        Solution::Inconsistent
    ));
}

#[test]
fn solve_reports_infinite() {
    // x + 2y = 3, 2x + 4y = 6 reduces to [1 2 | 3; 0 0 | 0].
    let pivots = vec![Some(0), None];
    assert!(matches!(
        read_solution(&pivots, &vec![3.0, 0.0], 2, 0.0),
        Solution::Infinite
    ));
    // One equation, two unknowns: [1 1 | 2].
    assert!(matches!(
        read_solution(&vec![Some(0)], &vec![2.0], 2, 0.0),
        Solution::Infinite
    ));
}

#[test]
fn read_solution_with_no_unknowns_is_unique_and_empty() {
    let Solution::Unique(x) = read_solution::<f64>(&vec![], &vec![], 0, 0.0) else {
        panic!("zero unknowns and no contradiction: the empty solution");
    };
    assert!(x.is_empty());
    assert!(matches!(
        read_solution(&vec![Some(0)], &vec![1.0], 0, 0.0),
        Solution::Inconsistent
    ));
}
