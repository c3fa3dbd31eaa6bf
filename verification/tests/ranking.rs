use dupefinder::ranking::descending_order;

#[test]
fn greatest_key_comes_first() {
    assert_eq!(descending_order(&vec![5, 9, 1, 7]), vec![1, 3, 0, 2]);
    assert_eq!(descending_order(&Vec::new()), Vec::<usize>::new());
    assert_eq!(descending_order(&vec![3]), vec![0]);
    assert_eq!(descending_order(&vec![0, u64::MAX]), vec![1, 0]);
}

#[test]
fn of_equal_keys_the_later_comes_first() {
    assert_eq!(descending_order(&vec![2, 2, 2]), vec![2, 1, 0]);
    assert_eq!(descending_order(&vec![1, 4, 1, 4, 0]), vec![3, 1, 2, 0, 4]);
}

#[test]
fn every_place_is_named_once() {
    let keys: Vec<u64> = (0..100u64).map(|i| i * 7919 % 13).collect();
    let order = descending_order(&keys);
    let mut seen = vec![false; keys.len()];
    for &p in &order {
        assert!(!seen[p]);
        seen[p] = true;
    }
    assert!(seen.iter().all(|&s| s));
    for w in order.windows(2) {
        assert!(keys[w[0]] > keys[w[1]] || (keys[w[0]] == keys[w[1]] && w[0] > w[1]));
    }
}
