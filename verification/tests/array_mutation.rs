use rust_exercises::array_mutation::{array_mut_mut, array_mut_ownership};

const OWNERSHIP_TEST_ARRAY: [u32; 5] = [1, 2, 3, 4, 5];

#[test]
fn test_ownership_mutation() {
    assert_eq!(array_mut_ownership(OWNERSHIP_TEST_ARRAY, '+', 1), [2, 3, 4, 5, 6]);
    assert_eq!(array_mut_ownership(OWNERSHIP_TEST_ARRAY, '-', 1), [0, 1, 2, 3, 4]);
    assert_eq!(array_mut_ownership(OWNERSHIP_TEST_ARRAY, '*', 2), [2, 4, 6, 8, 10]);
    assert_eq!(array_mut_ownership(OWNERSHIP_TEST_ARRAY, '/', 2), [0, 1, 1, 2, 2]);
}

#[test]
fn test_mut_ref_mutation() {
    let mut array = OWNERSHIP_TEST_ARRAY.clone();
    array_mut_mut(&mut array, '+', 1);
    assert_eq!(array, [2, 3, 4, 5, 6]);

    let mut array = OWNERSHIP_TEST_ARRAY.clone();
    array_mut_mut(&mut array, '-', 1);
    assert_eq!(array, [0, 1, 2, 3, 4]);

    let mut array = OWNERSHIP_TEST_ARRAY.clone();
    array_mut_mut(&mut array, '*', 2);
    assert_eq!(array, [2, 4, 6, 8, 10]);

    let mut array = OWNERSHIP_TEST_ARRAY.clone();
    array_mut_mut(&mut array, '/', 2);
    assert_eq!(array, [0, 1, 1, 2, 2]);
}

#[test]
fn unknown_operator_by_value_gives_zeros() {
    assert_eq!(array_mut_ownership(OWNERSHIP_TEST_ARRAY, '%', 3), [0, 0, 0, 0, 0]);
}

#[test]
fn unknown_operator_in_place_changes_nothing() {
    let mut array = OWNERSHIP_TEST_ARRAY.clone();
    array_mut_mut(&mut array, '%', 3);
    assert_eq!(array, OWNERSHIP_TEST_ARRAY);
}

#[test]
fn in_place_on_empty_slice() {
    let mut v: Vec<u32> = Vec::new();
    array_mut_mut(&mut v, '+', 1);
    assert!(v.is_empty());
}
