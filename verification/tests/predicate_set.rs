use linear_algebra_101::predicate_set::{FnRule, PredicateSet, Rule};

// Sets that may be infinite are compared on a fixed list of probe points:
// one disagreement is a counterexample, agreement everywhere is evidence.

/// The first probe on which `a` and `b` disagree, if any.
fn first_disagreement<'a, T, A: Rule<T>, B: Rule<T>>(
    a: &PredicateSet<T, A>,
    b: &PredicateSet<T, B>,
    probes: &'a [T],
) -> Option<&'a T> {
    probes.iter().find(|x| a.contains(x) != b.contains(x))
}

/// Negative numbers, zero, odd and even, small and large.
const PROBES: [i32; 13] = [-101, -3, -2, -1, 0, 1, 2, 3, 7, 10, 11, 100, 101];

fn even_set() -> PredicateSet<i32, FnRule<impl Fn(&i32) -> bool>> {
    PredicateSet::new(|n: &i32| n % 2 == 0)
}

fn positive_set() -> PredicateSet<i32, FnRule<impl Fn(&i32) -> bool>> {
    PredicateSet::new(|n: &i32| *n > 0)
}

#[test]
fn empty_and_universal_are_the_two_extremes() {
    let empty = PredicateSet::<i32>::empty();
    let universal = PredicateSet::<i32>::universal();
    for x in PROBES {
        assert!(!empty.contains(&x), "∅ 不該包含 {x}");
        assert!(universal.contains(&x), "U 應包含每個元素,卻漏了 {x}");
    }
}

#[test]
fn union_is_boolean_or() {
    let got = even_set().union(&positive_set());
    let want = PredicateSet::new(|n: &i32| n % 2 == 0 || *n > 0);
    assert!(
        first_disagreement(&got, &want, &PROBES).is_none(),
        "union 與 (even OR positive) 不一致"
    );
}

#[test]
fn intersection_is_boolean_and() {
    let got = even_set().intersection(&positive_set());
    let want = PredicateSet::new(|n: &i32| n % 2 == 0 && *n > 0);
    assert!(
        first_disagreement(&got, &want, &PROBES).is_none(),
        "intersection 與 (even AND positive) 不一致"
    );
}

#[test]
fn complement_is_boolean_not() {
    let got = even_set().complement();
    let want = PredicateSet::new(|n: &i32| n % 2 != 0);
    assert!(
        first_disagreement(&got, &want, &PROBES).is_none(),
        "complement 與 (not even) 不一致"
    );
}

#[test]
fn excluded_middle_and_contradiction() {
    let a = even_set();
    assert!(
        first_disagreement(
            &a.union(&a.complement()),
            &PredicateSet::universal(),
            &PROBES
        )
        .is_none(),
        "排中律失敗:A ∪ Aᶜ 不是全集"
    );
    assert!(
        first_disagreement(
            &a.intersection(&a.complement()),
            &PredicateSet::empty(),
            &PROBES
        )
        .is_none(),
        "矛盾律失敗:A ∩ Aᶜ 不是空集"
    );
}

#[test]
fn de_morgan_laws() {
    let a = even_set();
    let b = positive_set();

    let left1 = a.union(&b).complement();
    let right1 = a.complement().intersection(&b.complement());
    assert!(
        first_disagreement(&left1, &right1, &PROBES).is_none(),
        "De Morgan 失敗:(A∪B)ᶜ ≠ Aᶜ∩Bᶜ"
    );

    let left2 = a.intersection(&b).complement();
    let right2 = a.complement().union(&b.complement());
    assert!(
        first_disagreement(&left2, &right2, &PROBES).is_none(),
        "De Morgan 失敗:(A∩B)ᶜ ≠ Aᶜ∪Bᶜ"
    );
}

#[test]
fn difference_is_intersection_with_complement() {
    let got = positive_set().difference(&even_set());
    let want = PredicateSet::new(|n: &i32| *n > 0 && n % 2 != 0);
    assert!(
        first_disagreement(&got, &want, &PROBES).is_none(),
        "difference 與 (positive AND odd) 不一致"
    );
}

#[test]
fn holds_genuinely_infinite_set() {
    let even = even_set();
    for x in [-1000, -2, 0, 2, 4, 1000, 1_000_000] {
        assert!(even.contains(&x), "even 應包含 {x}");
    }
    for x in [-999, -1, 1, 3, 999_999] {
        assert!(!even.contains(&x), "even 不應包含 {x}");
    }
}

#[test]
fn sets_stay_usable_after_being_combined() {
    // The operations borrow their operands: a set can appear in any number of
    // expressions, and the results keep working after the operands are gone.
    let combined = {
        let a = even_set();
        let b = positive_set();
        let first = a.union(&b);
        let second = a.difference(&b);
        first.intersection(&second.complement())
    };
    // (even ∪ positive) ∩ ¬(even ∩ ¬positive) = positive
    for x in PROBES {
        assert_eq!(combined.contains(&x), x > 0, "x = {x}");
    }
}

#[test]
fn sets_of_vectors_decide_membership_by_value() {
    let zeros = PredicateSet::new(|v: &Vec<i64>| v.iter().all(|&x| x == 0));
    assert!(zeros.contains(&vec![0, 0, 0]));
    assert!(!zeros.contains(&vec![0, 1, 0]));
    assert!(zeros.contains(&Vec::new()));
}

/// The xy-plane `{ (x, y, 0) }` inside `ℝ³`.
fn xy_plane() -> PredicateSet<Vec<f64>, FnRule<impl Fn(&Vec<f64>) -> bool>> {
    PredicateSet::new(|v: &Vec<f64>| v.len() == 3 && v[2] == 0.0)
}

/// The first quadrant `{ (x, y) : x ≥ 0, y ≥ 0 }` inside `ℝ²`.
fn first_quadrant() -> PredicateSet<Vec<f64>, FnRule<impl Fn(&Vec<f64>) -> bool>> {
    PredicateSet::new(|v: &Vec<f64>| v.len() == 2 && v.iter().all(|&x| x >= 0.0))
}

#[test]
fn contains_zero_accepts_xy_plane() {
    assert!(xy_plane().contains_zero(&vec![0.0; 3]), "(0,0,0) has third entry 0, so it is on the plane");
}

#[test]
fn contains_zero_rejects_shifted_line() {
    let line = PredicateSet::new(|v: &Vec<f64>| v.len() == 2 && v[1] == 1.0);
    assert!(!line.contains_zero(&vec![0.0; 2]), "(0,0) is not on y = 1");
}

#[test]
fn contains_zero_accepts_first_quadrant() {
    assert!(first_quadrant().contains_zero(&vec![0.0; 2]), "0 ≥ 0: the origin is in the quadrant");
}

#[test]
fn contains_zero_depends_on_the_dimension() {
    // The zero vector of ℝ² is not in a subset of ℝ³.
    assert!(!xy_plane().contains_zero(&vec![0.0; 2]));
    let integers = PredicateSet::new(|v: &Vec<i64>| v.iter().all(|&x| x == 0));
    assert!(integers.contains_zero(&vec![]));
    assert!(integers.contains_zero(&vec![0; 4]));
}

fn add(u: &[f64], v: &[f64]) -> Option<Vec<f64>> {
    if u.len() == v.len() {
        Some(u.iter().zip(v).map(|(a, b)| a + b).collect())
    } else {
        None
    }
}

fn scale(u: &[f64], c: f64) -> Vec<f64> {
    u.iter().map(|a| c * a).collect()
}

fn closed_at<R: Rule<Vec<f64>>>(s: &PredicateSet<Vec<f64>, R>, u: &[f64], v: &[f64], c: f64) -> bool {
    let sum = add(u, v);
    s.closed_at(&u.to_vec(), &v.to_vec(), sum.as_ref(), &scale(u, c))
}

#[test]
fn closed_at_first_quadrant_fails_on_negative_scalar() {
    assert!(
        !closed_at(&first_quadrant(), &[1.0, 2.0], &[2.0, 1.0], -1.0),
        "-1·(1,2) = (-1,-2) leaves the quadrant"
    );
}

#[test]
fn closed_at_first_quadrant_passes_on_positive_scalar() {
    assert!(closed_at(&first_quadrant(), &[1.0, 2.0], &[2.0, 1.0], 2.0));
}

#[test]
fn closed_at_is_vacuously_true_when_premise_fails() {
    assert!(
        closed_at(&first_quadrant(), &[-1.0, 0.0], &[1.0, 1.0], -5.0),
        "a false premise makes the sample say nothing"
    );
}

#[test]
fn closed_at_rejects_dimension_mismatch() {
    let anything = PredicateSet::<Vec<f64>>::universal();
    assert!(!closed_at(&anything, &[1.0, 2.0], &[1.0, 2.0, 3.0], 1.0));
}

#[test]
fn clone_is_the_same_set() {
    let even = even_set();
    let copy = even.clone();
    for x in PROBES {
        assert_eq!(copy.contains(&x), even.contains(&x));
    }
    let odd = copy.complement();
    assert!(odd.contains(&3) && !odd.contains(&4));
}
