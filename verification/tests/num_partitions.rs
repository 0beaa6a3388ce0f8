use partition_kit::num_partitions::{num_partitions, num_partitions2, NumPartitiosIter};
use partition_kit::owned_iterator::OwnedIterator;

fn collect_partitions(mut partitions_iter: NumPartitiosIter) -> Vec<Vec<u32>> {
    let mut result = vec![];
    while let Some(partition) = partitions_iter.next() {
        result.push(partition.to_vec());
    }
    result
}

fn unordered(mut partitions: Vec<Vec<u32>>) -> Vec<Vec<u32>> {
    for p in partitions.iter_mut() {
        p.sort();
    }
    partitions.sort();
    partitions
}

#[test]
fn test_one() {
    assert_eq!(unordered(num_partitions(1, 1)), vec![vec![1]]);
    assert_eq!(unordered(collect_partitions(NumPartitiosIter::new(1, 1))), vec![vec![1]]);
}

#[test]
fn test_two() {
    assert_eq!(unordered(num_partitions(2, 1)), vec![vec![2]]);
    assert_eq!(unordered(collect_partitions(NumPartitiosIter::new(2, 1))), vec![vec![2]]);
}

#[test]
fn test_two_two() {
    assert_eq!(unordered(num_partitions(2, 2)), vec![vec![1, 1]]);
    assert_eq!(unordered(collect_partitions(NumPartitiosIter::new(2, 2))), vec![vec![1, 1]]);
}

#[test]
fn test_four_two() {
    let expected = unordered(vec![vec![1, 3], vec![2, 2]]);
    assert_eq!(unordered(num_partitions(4, 2)), expected);
    assert_eq!(unordered(collect_partitions(NumPartitiosIter::new(4, 2))), expected);
}

#[test]
fn test_seven_three() {
    let expected = unordered(vec![vec![1, 1, 5], vec![1, 2, 4], vec![1, 3, 3], vec![2, 2, 3]]);
    assert_eq!(unordered(num_partitions(7, 3)), expected);
    assert_eq!(unordered(collect_partitions(NumPartitiosIter::new(7, 3))), expected);
}

#[test]
fn recursive_listing_is_ascending_and_largest_first() {
    assert_eq!(
        num_partitions(7, 3),
        vec![vec![3, 2, 2], vec![3, 3, 1], vec![4, 2, 1], vec![5, 1, 1]]
    );
}

#[test]
fn lending_iterator_goes_down_from_the_greatest() {
    assert_eq!(
        collect_partitions(num_partitions2(7, 3)),
        vec![vec![5, 1, 1], vec![4, 2, 1], vec![3, 3, 1], vec![3, 2, 2]]
    );
}

#[test]
fn impossible_counts_give_nothing() {
    assert!(num_partitions(2, 3).is_empty());
    assert!(num_partitions(3, 0).is_empty());
    assert_eq!(num_partitions(0, 0), vec![Vec::<u32>::new()]);
}

#[test]
fn exhausted_iterator_stays_exhausted() {
    let mut it = NumPartitiosIter::new(3, 3);
    assert_eq!(it.next().map(|p| p.to_vec()), Some(vec![1, 1, 1]));
    assert!(it.next().is_none());
    assert!(it.next().is_none());
}

#[test]
fn both_listings_agree() {
    for n in 1..=12u32 {
        for k in 1..=n {
            let mut a = num_partitions(n, k);
            a.reverse();
            assert_eq!(a, collect_partitions(NumPartitiosIter::new(n, k)), "n={n} k={k}");
        }
    }
}

#[test]
fn lending_run_starts_at_top_and_ends_at_even_split() {
    for (n, k, top, even) in [
        (10u32, 4u32, vec![7u32, 1, 1, 1], vec![3u32, 3, 2, 2]),
        (9, 3, vec![7, 1, 1], vec![3, 3, 3]),
        (5, 1, vec![5], vec![5]),
    ] {
        let all = collect_partitions(NumPartitiosIter::new(n, k));
        assert_eq!(all.first(), Some(&top));
        assert_eq!(all.last(), Some(&even));
    }
}
