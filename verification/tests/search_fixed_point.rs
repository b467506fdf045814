use classic_structures::search_fixed_point::fixed_point;

#[test]
fn search_fixed_point_search_one(){
    let count= 1;
    let mut array=Vec::new();
    for i in 0..count {
        array.push(i);
    }
    assert_eq!(fixed_point(&array).unwrap(), 0);
}

#[test]
fn search_fixed_point_search_two(){
    let count= 2;
    let mut array=Vec::new();
    for i in 0..count {
        array.push(i);
    }
    assert_eq!(fixed_point(&array).unwrap(), 0);
}

#[test]
fn search_fixed_point_search_three(){
    let count= 3;
    let mut array=Vec::new();
    for i in 0..count {
        array.push(i);
    }
    assert_eq!(fixed_point(&array).unwrap(), 1);
}

#[test]
fn search_not_contiguous_three(){
    let count= 3;
    let mut array=Vec::new();
    for i in 0..count {
        array.push(i*2);
    }
    assert_eq!(fixed_point(&array).unwrap(), 0);
}

#[test]
fn search_not_contiguous_five(){
    let count= 5;
    let mut array=Vec::new();
    for i in 0..count {
        array.push(i*2);
    }
    assert_eq!(fixed_point(&array).unwrap(), 0);
}

#[test]
fn search_fixed_point_search_not_found(){
    let count= 5;
    let mut array=Vec::new();
    for i in 0..count {
        array.push(i+1);
    }
    assert_eq!(fixed_point(&array), None);
}
