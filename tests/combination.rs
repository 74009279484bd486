use meal::combination::Combination;

#[test]
fn test_comb_iterator() {
    let data_list = vec![1, 2, 3, 4, 5];
    let comb = Combination::new(data_list, 3);

    let mut iter = comb.iter();
    assert_eq!(iter.next(), Some(vec![&5, &4, &3]));
    assert_eq!(iter.next(), Some(vec![&5, &4, &2]));
    assert_eq!(iter.next(), Some(vec![&5, &4, &1]));
    assert_eq!(iter.next(), Some(vec![&5, &3, &2]));
    assert_eq!(iter.next(), Some(vec![&5, &3, &1]));
    assert_eq!(iter.next(), Some(vec![&5, &2, &1]));

    assert_eq!(iter.next(), Some(vec![&4, &3, &2]));
    assert_eq!(iter.next(), Some(vec![&4, &3, &1]));
    assert_eq!(iter.next(), Some(vec![&4, &2, &1]));

    assert_eq!(iter.next(), Some(vec![&3, &2, &1]));

    assert_eq!(iter.next(), None);

    let data_list = vec![1, 2, 3, 4, 5];
    let comb = Combination::new(data_list, 3);
    let mut iter = comb.iter();
    let mut count = 0;
    while iter.next().is_some() {
        count += 1;
    }
    assert_eq!(count, (5 * 4 * 3) / (3 * 2 * 1));

    let data_list = vec![1, 2, 3, 4, 5, 6, 7, 8, 9, 10];
    let comb = Combination::new(data_list, 5);
    let mut iter = comb.iter();
    let mut count = 0;
    while iter.next().is_some() {
        count += 1;
    }
    assert_eq!(count, (10 * 9 * 8 * 7 * 6) / (5 * 4 * 3 * 2 * 1));
}

fn collect_all(n: usize, k: usize) -> Vec<Vec<usize>> {
    let comb = Combination::new((1..=n).collect::<Vec<usize>>(), k);
    let mut iter = comb.iter();
    let mut all = Vec::new();
    while let Some(v) = iter.next() {
        all.push(v.into_iter().copied().collect::<Vec<usize>>());
    }
    all
}

#[test]
fn enumeration_order_of_three_out_of_five() {
    let expected: Vec<Vec<usize>> = vec![
        vec![5, 4, 3],
        vec![5, 4, 2],
        vec![5, 4, 1],
        vec![5, 3, 2],
        vec![5, 3, 1],
        vec![5, 2, 1],
        vec![4, 3, 2],
        vec![4, 3, 1],
        vec![4, 2, 1],
        vec![3, 2, 1],
    ];
    assert_eq!(collect_all(5, 3), expected);
}

#[test]
fn enumeration_counts() {
    assert_eq!(collect_all(5, 3).len(), 10);
    assert_eq!(collect_all(10, 5).len(), 252);
    assert_eq!(collect_all(7, 1).len(), 7);
    assert_eq!(collect_all(7, 7).len(), 1);
}

#[test]
fn enumeration_covers_every_subset_once() {
    let all = collect_all(7, 3);
    assert_eq!(all.len(), 35);
    for (i, a) in all.iter().enumerate() {
        assert!(a.windows(2).all(|w| w[0] > w[1]));
        assert!(a.iter().all(|&x| 1 <= x && x <= 7));
        for b in all.iter().skip(i + 1) {
            assert_ne!(a, b);
        }
    }
}

#[test]
fn enumeration_of_a_size_larger_than_the_pool_is_empty() {
    assert!(collect_all(3, 4).is_empty());
    assert!(collect_all(0, 1).is_empty());
}
