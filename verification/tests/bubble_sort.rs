use classic_structures::bubble_sort::bubble_sort;
use rand::random;

#[test]
fn bubble_sort_one() {
    let mut array=[0;1];
    for i in 0..array.len() {
        array[i]=random();
    }
    let mut array_sorted=[0i32;1];
    array_sorted.clone_from_slice(&array);
    array_sorted.sort();
    bubble_sort(&mut array);

    for i in 0..array.len() {
        if i>=1 {
            assert!(array[i]>array[i-1]);
        }
        assert_eq!(array[i], array_sorted[i]);
    }
}

#[test]
fn bubble_sort_two() {
    let mut array=[0;2];
    for i in 0..array.len() {
        array[i]=random();
    }
    let mut array_sorted=[0i32;2];
    array_sorted.clone_from_slice(&array);
    array_sorted.sort();
    bubble_sort(&mut array);

    for i in 0..array.len() {
        if i>=1 {
            assert!(array[i]>array[i-1]);
        }
        assert_eq!(array[i], array_sorted[i]);
    }
}

#[test]
fn bubble_sort_three() {
    let mut array=[0;3];
    for i in 0..array.len() {
        array[i]=random();
    }
    let mut array_sorted=[0i32;3];
    array_sorted.clone_from_slice(&array);
    array_sorted.sort();
    bubble_sort(&mut array);

    for i in 0..array.len() {
        if i>=1 {
            assert!(array[i]>array[i-1]);
        }
        assert_eq!(array[i], array_sorted[i]);
    }
}

#[test]
fn bubble_sort_four() {
    let mut array=[0;4];
    for i in 0..array.len() {
        array[i]=random();
    }
    let mut array_sorted=[0i32;4];
    array_sorted.clone_from_slice(&array);
    array_sorted.sort();
    bubble_sort(&mut array);

    for i in 0..array.len() {
        if i>=1 {
            assert!(array[i]>array[i-1]);
        }
        assert_eq!(array[i], array_sorted[i]);
    }
}

#[test]
fn bubble_sort_five() {
    let mut array=[0;5];
    for i in 0..array.len() {
        array[i]=random();
    }
    let mut array_sorted=[0i32;5];
    array_sorted.clone_from_slice(&array);
    array_sorted.sort();
    bubble_sort(&mut array);

    for i in 0..array.len() {
        if i>=1 {
            assert!(array[i]>array[i-1]);
        }
        assert_eq!(array[i], array_sorted[i]);
    }
}
