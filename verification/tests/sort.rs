use algorithms::sort::{bubble, heap, insertion, msort, selection, shell};

#[test]
fn bubble_empty() {
    let mut arr: [i32; 0] = [];
    bubble(&mut arr);
    assert_eq!(arr, []);
}

#[test]
fn bubble_single_element() {
    let mut arr: [i32; 1] = [7];
    bubble(&mut arr);
    assert_eq!(arr, [7]);
}

#[test]
fn bubble_already_sorted() {
    let mut arr: [char; 3] = ['a', 'b', 'c'];
    bubble(&mut arr);
    assert_eq!(arr, ['a', 'b', 'c']);
}

#[test]
fn bubble_basic() {
    let mut arr: [char; 4] = ['d', 'a', 'c', 'b'];
    bubble(&mut arr);
    assert_eq!(arr, ['a', 'b', 'c', 'd']);
}

#[test]
fn bubble_repeated_elements() {
    let mut arr: [i32; 4] = [542, 542, 542, 542];
    bubble(&mut arr);
    assert_eq!(arr, [542, 542, 542, 542]);
}

#[test]
fn heap_empty() {
    let mut arr: [u32; 0] = [];

    heap(&mut arr);
}

#[test]
fn heap_basic() {
    let mut arr: [u32; 11] = [0, 2, 5, 9, 8, 7, 4, 3, 10, 16, 13];

    heap(&mut arr);

    assert_eq!(arr, [0, 2, 3, 4, 5, 7, 8, 9, 10, 13, 16]);
}

#[test]
fn insertion_empty() {
    let mut arr: [i32; 0] = [];
    insertion(&mut arr);
    assert_eq!(arr, []);
}

#[test]
fn insertion_single_element() {
    let mut arr: [i32; 1] = [7];
    insertion(&mut arr);
    assert_eq!(arr, [7]);
}

#[test]
fn insertion_already_sorted() {
    let mut arr: [char; 3] = ['a', 'b', 'c'];
    insertion(&mut arr);
    assert_eq!(arr, ['a', 'b', 'c']);
}

#[test]
fn insertion_basic() {
    let mut arr = [2, 5, 9, 8, 7, 4, 3, 10, 16, 13];
    insertion(&mut arr);
    assert_eq!(arr, [2, 3, 4, 5, 7, 8, 9, 10, 13, 16]);
}

#[test]
fn insertion_repeated_elements() {
    let mut arr: [i32; 4] = [542, 542, 542, 542];
    insertion(&mut arr);
    assert_eq!(arr, [542, 542, 542, 542]);
}

#[test]
fn merge_empty() {
    let mut arr: [u32; 0] = [];

    msort(arr.as_mut_slice());
}

#[test]
fn merge_single() {
    let mut arr = [1];

    msort(arr.as_mut_slice());
}

#[test]
fn top_to_btm() {
    let mut arr = [7, 5, 9, 8, 2, 4, 3, 10, 16, 13, 17, 14, 6u32];

    msort(&mut arr);

    assert_eq!(arr, [2, 3, 4, 5, 6, 7, 8, 9, 10, 13, 14, 16, 17]);
}

#[test]
fn selection_empty() {
    let mut arr: [i32; 0] = [];
    selection(&mut arr);
    assert_eq!(arr, []);
}

#[test]
fn selection_single_element() {
    let mut arr: [i32; 1] = [7];
    selection(&mut arr);
    assert_eq!(arr, [7]);
}

#[test]
fn selection_already_sorted() {
    let mut arr: [char; 3] = ['a', 'b', 'c'];
    selection(&mut arr);
    assert_eq!(arr, ['a', 'b', 'c']);
}

#[test]
fn selection_basic() {
    let mut arr: [char; 4] = ['d', 'a', 'c', 'b'];
    selection(&mut arr);
    assert_eq!(arr, ['a', 'b', 'c', 'd']);
}

#[test]
fn selection_repeated_elements() {
    let mut arr: [i32; 4] = [542, 542, 542, 542];
    selection(&mut arr);
    assert_eq!(arr, [542, 542, 542, 542]);
}

#[test]
fn shell_basic() {
    let mut arr = [7, 5, 9, 8, 2, 4, 3, 10, 16, 13, 17, 14, 6];
    shell(&mut arr);
    assert_eq!(arr, [2, 3, 4, 5, 6, 7, 8, 9, 10, 13, 14, 16, 17]);
}

#[test]
fn sorts_agree_on_mixed_input() {
    let input = [5i32, -3, 9, 0, -3, 7, 7, 1, 12, -8, 4];
    let mut expect = input;
    expect.sort();

    let mut a = input;
    bubble(&mut a);
    assert_eq!(a, expect);
    let mut a = input;
    heap(&mut a);
    assert_eq!(a, expect);
    let mut a = input;
    insertion(&mut a);
    assert_eq!(a, expect);
    let mut a = input;
    msort(&mut a);
    assert_eq!(a, expect);
    let mut a = input;
    selection(&mut a);
    assert_eq!(a, expect);
    let mut a = input;
    shell(&mut a);
    assert_eq!(a, expect);
}

#[test]
fn sorts_move_items_to_the_front() {
    let input = [9u8, 8, 7, 6, 5, 4, 3, 2, 1, 0];
    let expect = [0u8, 1, 2, 3, 4, 5, 6, 7, 8, 9];

    let mut a = input;
    insertion(&mut a);
    assert_eq!(a, expect);
    let mut a = input;
    shell(&mut a);
    assert_eq!(a, expect);
    let mut a = input;
    heap(&mut a);
    assert_eq!(a, expect);
}

#[test]
fn heap_single_and_pair() {
    let mut one = [3u32];
    heap(&mut one);
    assert_eq!(one, [3]);
    let mut two = [4u32, 1];
    heap(&mut two);
    assert_eq!(two, [1, 4]);
}

#[test]
fn test_empty() {
    let mut arr: [u32; 0] = [];

    algorithms::sort::qsort(&mut arr);
}

#[test]
fn test_normal() {
    let mut arr = [7, 5, 9, 8, 2, 4, 3, 10, 16, 13, 17, 14, 6u32];

    algorithms::sort::qsort(&mut arr);

    assert_eq!(arr, [2, 3, 4, 5, 6, 7, 8, 9, 10, 13, 14, 16, 17]);
}

#[test]
fn test_chars() {
    let mut arr: Vec<char> = "RBWWRWBRRWBR".chars().collect();

    algorithms::sort::qsort(&mut arr);

    assert_eq!(String::from_iter(arr), "BBBRRRRRWWWW");
}

#[test]
fn qsort_keeps_every_item() {
    let mut arr: Vec<u16> = (0..500u16).map(|k| (k * 37) % 101).collect();
    let mut expect = arr.clone();
    expect.sort();

    algorithms::sort::qsort(&mut arr);

    assert_eq!(arr, expect);
}

#[test]
fn sorts_order_pairs_by_both_parts() {
    let input = [(2u8, 'b'), (1, 'z'), (2, 'a'), (0, 'q'), (1, 'a')];
    let expect = [(0u8, 'q'), (1, 'a'), (1, 'z'), (2, 'a'), (2, 'b')];

    let mut a = input;
    msort(&mut a);
    assert_eq!(a, expect);
    let mut a = input;
    heap(&mut a);
    assert_eq!(a, expect);
    let mut a = input;
    algorithms::sort::qsort(&mut a);
    assert_eq!(a, expect);
    let mut a = input;
    bubble(&mut a);
    assert_eq!(a, expect);
}
