use rust_exercises::sorting::{bubble_sort, selection_sort};

#[test]
fn test_bubble_sort() {
    let mut bs1 = vec![10, 5, 8, 9, 7, 4, 3, 2, 1];
    let bs1s = [1, 2, 3, 4, 5, 7, 8, 9, 10];

    bubble_sort(&mut bs1);

    assert!(bs1s.iter().zip(bs1.iter()).all(|(a, b)| *a == *b))
}

#[test]
fn test_selection_sort() {
    let mut bs1 = vec![10, 5, 8, 9, 7, 4, 3, 2, 1];
    let bs1s = [1, 2, 3, 4, 5, 7, 8, 9, 10];

    selection_sort(&mut bs1);

    assert!(bs1s.iter().zip(bs1.iter()).all(|(a, b)| *a == *b))
}

#[test]
fn sorts_keep_duplicates_and_length() {
    let mut a = vec![3, 1, 3, 2, 1];
    bubble_sort(&mut a);
    assert_eq!(a, vec![1, 1, 2, 3, 3]);
    let mut b = vec![3, 1, 3, 2, 1];
    selection_sort(&mut b);
    assert_eq!(b, vec![1, 1, 2, 3, 3]);
}

#[test]
fn sorts_short_vectors() {
    let mut e: Vec<i32> = vec![];
    bubble_sort(&mut e);
    assert!(e.is_empty());
    let mut one = vec![7];
    selection_sort(&mut one);
    assert_eq!(one, vec![7]);
    let mut two = vec![2, 1];
    bubble_sort(&mut two);
    assert_eq!(two, vec![1, 2]);
}

#[test]
fn sorts_strings() {
    let mut v = vec!["pear".to_string(), "apple".to_string(), "fig".to_string()];
    selection_sort(&mut v);
    assert_eq!(v, vec!["apple".to_string(), "fig".to_string(), "pear".to_string()]);
}
