use algorithms::number_theory::{is_monotonic, linear_sieve};

#[test]
fn front_100() {
    assert_eq!(
        linear_sieve(100),
        [
            2, 3, 5, 7, 11, 13, 17, 19, 23, 29, 31, 37, 41, 43, 47, 53, 59, 61, 67, 71, 73, 79,
            83, 89, 97,
        ]
    );
}

#[test]
fn illegal_usage() {
    assert_eq!(linear_sieve(0), []);
    assert_eq!(linear_sieve(1), []);
}

#[test]
fn linear_sieve_single_element() {
    assert_eq!(linear_sieve(2), [2]);
}

#[test]
fn increasing() {
    let arr = [1, 2, 3, 4];
    assert!(is_monotonic(&arr));
}

#[test]
fn equaling() {
    let arr = [4, 4, 4, 4];
    assert!(is_monotonic(&arr));
}

#[test]
fn monotonic_single() {
    let arr = [13];
    assert!(is_monotonic(&arr));
}

#[test]
fn not_monotonic() {
    let arr = [1, 1, 4, 5, 1, 4];
    assert!(!is_monotonic(&arr));
}

#[test]
fn decreasing_is_monotonic() {
    let arr = [9, 7, 7, 2];
    assert!(is_monotonic(&arr));
}

#[test]
fn sieve_to_thirty() {
    assert_eq!(linear_sieve(30), [2, 3, 5, 7, 11, 13, 17, 19, 23, 29]);
    assert_eq!(linear_sieve(3), [2, 3]);
    assert_eq!(linear_sieve(4), [2, 3]);
}
