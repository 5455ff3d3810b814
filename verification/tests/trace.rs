use linear_algebra_101::trace::{classify_solution, describe_swap, part_offsets};

#[test]
fn describe_swap_uses_one_based_row_names() {
    assert_eq!(describe_swap(0, 2), "R1 ↔ R3");
    assert_eq!(describe_swap(9, 10), "R10 ↔ R11");
    assert_eq!(describe_swap(1, 1), "R2 ↔ R2");
}

#[test]
fn part_offsets_are_prefix_sums() {
    assert_eq!(part_offsets(&vec![]), vec![0]);
    assert_eq!(part_offsets(&vec![0, 2, 1, 1]), vec![0, 0, 2, 3, 4]);
    let flat = vec![7, 8, 9, 10];
    let lengths = vec![0, 2, 1, 1];
    let offsets = part_offsets(&lengths);
    for (k, len) in lengths.iter().enumerate() {
        let part = &flat[offsets[k] as usize..offsets[k + 1] as usize];
        assert_eq!(part.len(), *len);
    }
}

#[test]
fn classify_solution_reads_the_reduced_augmented_matrix() {
    // [1 0 | 2; 0 1 | 3]: a pivot for each unknown.
    assert_eq!(classify_solution(&vec![Some(0), Some(1)], 2, 2), 1);
    // [1 2 | 3; 0 0 | 0]: a free unknown.
    assert_eq!(classify_solution(&vec![Some(0), None], 2, 1), 2);
    // [1 2 | 0; 0 0 | 1]: the row 0 = 1.
    assert_eq!(classify_solution(&vec![Some(0), Some(2)], 2, 2), 3);
    // The contradiction wins over a full rank.
    assert_eq!(classify_solution(&vec![Some(0), Some(1), Some(2)], 2, 3), 3);
    // No equation at all: every unknown is free.
    assert_eq!(classify_solution(&vec![], 1, 0), 2);
}
