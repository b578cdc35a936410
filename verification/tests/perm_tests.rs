use patchouly::perm::RegPermutation;

#[test]
fn test_no_arg() {
    let mut iter = RegPermutation::new(0, 0, 1);
    assert_eq!(iter.next(), Some(vec![]));
    assert_eq!(iter.next(), None);

    let mut iter = RegPermutation::new(0, 0, 10);
    assert_eq!(iter.next(), Some(vec![]));
    assert_eq!(iter.next(), None);
}

#[test]
fn test_all_on_stack() {
    let mut iter = RegPermutation::new(2, 2, 1);
    assert_eq!(iter.next(), Some(vec![0, 0, 0, 0]));
    assert_eq!(iter.next(), None);
}

#[test]
fn test_one_arg() {
    let mut iter = RegPermutation::new(0, 1, 4);
    assert_eq!(iter.next(), Some(vec![0]));
    assert_eq!(iter.next(), Some(vec![1]));
    assert_eq!(iter.next(), Some(vec![2]));
    assert_eq!(iter.next(), Some(vec![3]));
    assert_eq!(iter.next(), None);
}

#[test]
fn perm_test_two_args() {
    let mut iter = RegPermutation::new(1, 1, 2);
    assert_eq!(iter.next(), Some(vec![0, 0]));
    assert_eq!(iter.next(), Some(vec![0, 1]));
    assert_eq!(iter.next(), Some(vec![1, 0]));
    assert_eq!(iter.next(), Some(vec![1, 1]));
    assert_eq!(iter.next(), None);

    let mut iter = RegPermutation::new(1, 1, 10);
    for _ in 0..100 {
        assert!(iter.next().is_some());
    }
    assert_eq!(iter.next(), None);
}

#[test]
fn test_multiple() {
    let mut iter = RegPermutation::new(2, 1, 3);
    assert_eq!(iter.next(), Some(vec![0, 0, 0]));
    assert_eq!(iter.next(), Some(vec![0, 0, 1]));
    assert_eq!(iter.next(), Some(vec![0, 0, 2]));
    assert_eq!(iter.next(), Some(vec![0, 1, 0]));
    assert_eq!(iter.next(), Some(vec![0, 1, 1]));
    assert_eq!(iter.next(), Some(vec![0, 1, 2]));
    assert_eq!(iter.next(), Some(vec![0, 2, 0]));
    assert_eq!(iter.next(), Some(vec![0, 2, 1]));
    assert_eq!(iter.next(), Some(vec![0, 2, 2]));

    assert_eq!(iter.next(), Some(vec![1, 0, 0]));
    assert_eq!(iter.next(), Some(vec![1, 0, 1]));
    assert_eq!(iter.next(), Some(vec![1, 0, 2]));
    assert_eq!(iter.next(), Some(vec![1, 2, 0]));
    assert_eq!(iter.next(), Some(vec![1, 2, 1]));
    assert_eq!(iter.next(), Some(vec![1, 2, 2]));

    assert_eq!(iter.next(), Some(vec![2, 0, 0]));
    assert_eq!(iter.next(), Some(vec![2, 0, 1]));
    assert_eq!(iter.next(), Some(vec![2, 0, 2]));
    assert_eq!(iter.next(), Some(vec![2, 1, 0]));
    assert_eq!(iter.next(), Some(vec![2, 1, 1]));
    assert_eq!(iter.next(), Some(vec![2, 1, 2]));
    assert_eq!(iter.next(), None);
}

#[test]
fn returns_may_share_a_register_with_arguments_but_not_each_other() {
    let mut iter = RegPermutation::new(1, 2, 3);
    let mut all = Vec::new();
    while let Some(t) = iter.next() {
        all.push(t);
    }
    assert!(all.contains(&vec![1, 1, 0]));
    assert!(!all.contains(&vec![0, 1, 1]));
    assert!(all.contains(&vec![0, 0, 0]));
    let mut sorted = all.clone();
    sorted.sort();
    sorted.dedup();
    assert_eq!(sorted, all);
    assert_eq!(all.len(), 3 * 7);
    assert_eq!(iter.next(), None);
}
