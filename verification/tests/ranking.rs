use bgtzip::ranking::{identity_order, sort_by_rank, sorted_unique};

#[test]
fn identity_order_counts_up() {
    assert_eq!(identity_order(4), vec![0, 1, 2, 3]);
    assert!(identity_order(0).is_empty());
}

#[test]
fn sort_by_rank_orders_by_both_keys_then_index() {
    let primary = [5u64, 9, 5, 9, 1, 5];
    let secondary = [1u64, 0, 7, 0, 3, 1];
    let all = identity_order(6);
    assert_eq!(sort_by_rank(&all, &primary, &secondary), vec![1, 3, 2, 0, 5, 4]);
    // a part of the indices, given in another order
    assert_eq!(sort_by_rank(&vec![5, 4, 0], &primary, &secondary), vec![0, 5, 4]);
    assert!(sort_by_rank(&Vec::new(), &primary, &secondary).is_empty());
    assert_eq!(sort_by_rank(&vec![3], &primary, &secondary), vec![3]);
}

#[test]
fn sort_by_rank_keeps_every_item_once() {
    let n = 1000usize;
    let primary: Vec<u64> = (0..n).map(|i| ((i * 7919) % 13) as u64).collect();
    let secondary: Vec<u64> = (0..n).map(|i| ((i * 104729) % 5) as u64).collect();
    let order = sort_by_rank(&identity_order(n), &primary, &secondary);
    assert_eq!(order.len(), n);
    let mut seen = vec![false; n];
    for &i in &order {
        assert!(!seen[i]);
        seen[i] = true;
    }
    for w in order.windows(2) {
        let (a, b) = (w[0], w[1]);
        assert!(
            (primary[a], secondary[a]) > (primary[b], secondary[b])
                || ((primary[a], secondary[a]) == (primary[b], secondary[b]) && a < b)
        );
    }
}

#[test]
fn sorted_unique_sorts_and_drops_repeats() {
    assert_eq!(sorted_unique(&vec![5, 1, 5, 3, 1, 9, 0]), vec![0, 1, 3, 5, 9]);
    assert_eq!(sorted_unique(&vec![2, 2, 2]), vec![2]);
    assert_eq!(sorted_unique(&vec![usize::MAX, 0]), vec![0, usize::MAX]);
    assert!(sorted_unique(&Vec::new()).is_empty());
}
