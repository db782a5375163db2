use bignum::sort::quicksort;

fn sorted_copy(v: &[i32]) -> Vec<i32> {
    let mut w = v.to_vec();
    w.sort();
    w
}

#[test]
fn quicksort_small_cases() {
    let mut empty: Vec<i32> = vec![];
    quicksort(&mut empty);
    assert!(empty.is_empty());
    let mut one = vec![5];
    quicksort(&mut one);
    assert_eq!(one, vec![5]);
    let mut two = vec![9, -3];
    quicksort(&mut two);
    assert_eq!(two, vec![-3, 9]);
}

#[test]
fn quicksort_sorts_and_keeps_elements() {
    let cases: Vec<Vec<i32>> = vec![
        vec![3, 1, 2],
        vec![5, 5, 5, 5],
        vec![i32::MAX, i32::MIN, 0, -1, 1, i32::MAX, i32::MIN],
        vec![10, 9, 8, 7, 6, 5, 4, 3, 2, 1, 0],
        (0..200).map(|i| ((i * 7919) % 211) as i32 - 100).collect(),
    ];
    for case in cases {
        let mut v = case.clone();
        quicksort(&mut v);
        assert_eq!(v, sorted_copy(&case));
    }
}
