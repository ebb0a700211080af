use khameleon::arrays::CountArray;

#[test]
fn count_array_round_trips_a_vector() {
    let a = CountArray::from_vec(vec![3, 1, 4]);
    assert_eq!(a.len(), 3);
    assert_eq!(a.to_vec(), vec![3, 1, 4]);
    assert_eq!(a.get(1), Some(1));
    assert_eq!(a.get(3), None);
}

#[test]
fn count_array_zeros_set_and_fill() {
    let mut a = CountArray::zeros(4);
    assert_eq!(a.to_vec(), vec![0, 0, 0, 0]);
    a.set(2, 9);
    assert_eq!(a.at(2), 9);
    assert_eq!(a.clone().to_vec(), vec![0, 0, 9, 0]);
    a.fill(7);
    assert_eq!(a.to_vec(), vec![7, 7, 7, 7]);
}
