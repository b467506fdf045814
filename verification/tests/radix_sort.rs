use classic_structures::radix_sort::radix_sort;
use rand::random;

#[test]
fn radix_sort_one() {
    let mut array=vec![0u64;1];
    for i in 0..array.len() {
        array[i]=random::<u32>().into();
    }
    let mut array_sorted=vec![0u64;1];
    array_sorted.clone_from_slice(&array);
    array_sorted.sort();
    radix_sort(&mut array);

    for i in 0..array.len() {
        if i>=1 {
            assert!(array[i]>array[i-1]);
        }
        assert_eq!(array[i], array_sorted[i]);
    }
}

#[test]
fn radix_sort_two() {
    let mut array=vec![0u64;2];
    for i in 0..array.len() {
        array[i]=random::<u32>().into();
    }
    let mut array_sorted=vec![0u64;2];
    array_sorted.clone_from_slice(&array);
    array_sorted.sort();
    radix_sort(&mut array);

    for i in 0..array.len() {
        if i>=1 {
            assert!(array[i]>array[i-1]);
        }
        assert_eq!(array[i], array_sorted[i]);
    }
}

#[test]
fn radix_sort_three() {
    let mut array=vec![0u64;3];
    for i in 0..array.len() {
        array[i]=random::<u32>().into();
    }
    let mut array_sorted=vec![0u64;3];
    array_sorted.clone_from_slice(&array);
    array_sorted.sort();
    radix_sort(&mut array);

    for i in 0..array.len() {
        if i>=1 {
            assert!(array[i]>array[i-1]);
        }
        assert_eq!(array[i], array_sorted[i]);
    }
}

#[test]
fn radix_sort_four() {
    let mut array=vec![0u64;4];
    for i in 0..array.len() {
        array[i]=random::<u32>().into();
    }
    let mut array_sorted=vec![0u64;4];
    array_sorted.clone_from_slice(&array);
    array_sorted.sort();
    radix_sort(&mut array);

    for i in 0..array.len() {
        if i>=1 {
            assert!(array[i]>array[i-1]);
        }
        assert_eq!(array[i], array_sorted[i]);
    }
}

#[test]
fn radix_sort_five() {
    let mut array=vec![0u64;5];
    for i in 0..array.len() {
        array[i]=random::<u32>().into();
    }
    let mut array_sorted=vec![0u64;5];
    array_sorted.clone_from_slice(&array);
    array_sorted.sort();
    radix_sort(&mut array);

    for i in 0..array.len() {
        if i>=1 {
            assert!(array[i]>array[i-1]);
        }
        assert_eq!(array[i], array_sorted[i]);
    }
}
