use lib::cartesian::cartesian;

#[test]
fn cartesian1() {
    let v = [vec![1, 2], vec![3], vec![4, 5]];
    let vals = cartesian(&v);
    assert_eq!(vals.iter().count(), 4);
}

#[test]
fn cartesian_order_first_column_fastest() {
    let v = [vec![1, 2], vec![3], vec![4, 5]];
    let vals = cartesian(&v);
    assert_eq!(vals, vec![vec![1, 3, 4], vec![2, 3, 4], vec![1, 3, 5], vec![2, 3, 5]]);
}

#[test]
fn cartesian_of_nothing_is_one_empty_tuple() {
    let v: [Vec<u8>; 0] = [];
    assert_eq!(cartesian(&v), vec![Vec::<u8>::new()]);
}
