use algorithms::combinatorics::next_permutation;

#[test]
fn permute_123() {
    let mut arr = [1, 2, 3];

    next_permutation(&mut arr);
    assert_eq!(arr, [1, 3, 2]);
    next_permutation(&mut arr);
    assert_eq!(arr, [2, 1, 3]);
    next_permutation(&mut arr);
    assert_eq!(arr, [2, 3, 1]);
    next_permutation(&mut arr);
    assert_eq!(arr, [3, 1, 2]);
    next_permutation(&mut arr);
    assert_eq!(arr, [3, 2, 1]);
}

#[test]
fn permutation_empty() {
    let mut arr: [(); 0] = [];

    assert!(!next_permutation(&mut arr));
}

#[test]
fn permutation_single() {
    let mut arr = [1];

    assert!(!next_permutation(&mut arr));
}

#[test]
fn permute_last_stays() {
    let mut arr = [3, 2, 1];

    assert!(!next_permutation(&mut arr));
    assert_eq!(arr, [3, 2, 1]);
}

#[test]
fn permute_with_repeats() {
    let mut arr = [1, 2, 2];

    assert!(next_permutation(&mut arr));
    assert_eq!(arr, [2, 1, 2]);
    assert!(next_permutation(&mut arr));
    assert_eq!(arr, [2, 2, 1]);
    assert!(!next_permutation(&mut arr));
}

#[test]
fn permute_longer() {
    let mut arr = [1, 5, 8, 4, 7, 6, 5, 3, 1];

    assert!(next_permutation(&mut arr));
    assert_eq!(arr, [1, 5, 8, 5, 1, 3, 4, 6, 7]);
}
