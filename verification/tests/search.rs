use algorithms::search::binary_search;

#[test]
fn binary_search_basic() {
    let mut arr: [i32; 5] = [85, 63, 24, 56, 45];
    arr.sort();

    assert_eq!(binary_search(&arr, 24), Some(0));
}

#[test]
fn binary_search_absent_and_edges() {
    let arr: [i32; 6] = [1, 3, 3, 3, 8, 10];

    assert_eq!(binary_search(&arr, 3), Some(1));
    assert_eq!(binary_search(&arr, 1), Some(0));
    assert_eq!(binary_search(&arr, 10), Some(5));
    assert_eq!(binary_search(&arr, 0), None);
    assert_eq!(binary_search(&arr, 4), None);
    assert_eq!(binary_search(&arr, 11), None);
    let none: [i32; 0] = [];
    assert_eq!(binary_search(&none, 1), None);
}
