use classic_structures::binary_search::binary_search;

#[test]
fn binary_search_search_one() {
    let count= 1;
    let mut array=Vec::new();
    for i in 0..count {
        array.push(i);
    }
    assert_eq!(binary_search(&array, &0).unwrap(), 0);
}

#[test]
fn binary_search_search_two() {
    let count= 2;
    let mut array=Vec::new();
    for i in 0..count {
        array.push(i);
    }
    assert_eq!(binary_search(&array, &0).unwrap(), 0);
}

#[test]
fn binary_search_search_three() {
    let count= 3;
    let mut array=Vec::new();
    for i in 0..count {
        array.push(i);
    }
    assert_eq!(binary_search(&array, &0).unwrap(), 0);
}

#[test]
fn search_all_in_five() {
    let count= 5;
    let mut array=Vec::new();
    for i in 0..count {
        array.push(i);
    }

    for i in 0..count{
        assert_eq!(binary_search(&array, &i).unwrap(), i);
    }
}

#[test]
fn binary_search_search_not_found() {
    let count= 1;
    let mut array=Vec::new();
    for i in 0..count {
        array.push(i);
    }
    assert_eq!(binary_search(&array, &1), None);
}
