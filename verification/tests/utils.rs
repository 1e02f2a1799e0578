use phf::utils::ArrayVec;

#[test]
fn test_api() {
    let mut arr = ArrayVec::<usize, 10>::new_empty(0);
    assert_eq!(arr.len(), 0);
    assert_eq!(arr.capacity(), 10);

    arr.push(1);
    arr.push(2);
    arr.push(4);
    assert_eq!(arr.len(), 3);
    assert_eq!(arr.capacity(), 10);
    assert_eq!(arr.get(2), 4);
    assert_eq!(arr.get(0), 1);

    arr.push(4);
    arr.set(2, 3);
    assert_eq!(arr.get(2), 3);
    assert_eq!(arr.get(arr.len() - 1), 4);

    arr.clear();
    assert_eq!(arr.len(), 0);
}

#[test]
fn array_vec_full_and_set_at_end() {
    let mut arr = ArrayVec::<u8, 3>::new_full(7);
    assert_eq!(arr.len(), 3);
    assert_eq!(*arr.get_ref(2), 7);
    arr.clear();
    arr.set(0, 5);
    assert_eq!(arr.len(), 1);
    assert_eq!(arr.get(0), 5);
}
