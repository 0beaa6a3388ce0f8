use partition_kit::iter::{counts_fit_up_to, IterUtil, PartitionsTable};

fn naive_partitions_count(n: u32, m: u32) -> usize {
    if n == 1 {
        1
    } else {
        m as usize * naive_partitions_count(n - 1, m) + naive_partitions_count(n - 1, m + 1)
    }
}

#[test]
fn test_idx() {
    let mut g_idx = 0;
    for level in 0..10 {
        for idx in 0..=level {
            let n = idx + 1;
            let m = level - idx + 1;
            assert_eq!(
                PartitionsTable::idx(n, m),
                g_idx,
                "Expected idx of n={n}, m={m} = {g_idx}"
            );

            g_idx += 1;
        }
    }
}

#[test]
fn test_partitions_count() {
    let mut partitions_table = PartitionsTable::new();
    for n in 1..=5 {
        for m in 1..=n {
            let table_count = partitions_table.num_partitions(n, m);
            let ref_count = naive_partitions_count(n, m);
            assert_eq!(
                table_count, ref_count,
                "Expected partition count of n={n} m={m} = {ref_count}, but got {table_count}"
            );
        }
    }
}

#[test]
fn test_partitions_count_randomized() {
    let mut partitions_table = PartitionsTable::new();
    let mut params: Vec<(u32, u32)> = (1..=8).flat_map(|n| (1..=n).map(move |m| (n, m))).collect();
    // A fixed scrambled order standing in for a random shuffle.
    let len = params.len();
    for i in 0..len {
        let j = (i * 17 + 5) % len;
        params.swap(i, j);
    }

    for (n, m) in params {
        let table_count = partitions_table.num_partitions(n, m);
        let ref_count = naive_partitions_count(n, m);
        assert_eq!(
            table_count, ref_count,
            "Expected partition count of n={n} m={m} = {ref_count}, but got {table_count}"
        );
    }
}

fn normalized(mut partitions: Vec<Vec<Vec<i32>>>) -> Vec<Vec<Vec<i32>>> {
    for p in partitions.iter_mut() {
        for block in p.iter_mut() {
            block.sort();
        }
        p.sort();
    }
    partitions.sort();
    partitions
}

#[test]
fn test_partitions() {
    let iter: Vec<i32> = (1..5).collect();
    let got = normalized(iter.all_partitions());
    let expected = normalized(vec![
        vec![vec![1, 2, 3, 4]],
        vec![vec![1, 2, 3], vec![4]],
        vec![vec![1, 2, 4], vec![3]],
        vec![vec![1, 3, 4], vec![2]],
        vec![vec![2, 3, 4], vec![1]],
        vec![vec![1, 2], vec![3, 4]],
        vec![vec![1, 3], vec![2, 4]],
        vec![vec![1, 4], vec![2, 3]],
        vec![vec![1, 2], vec![3], vec![4]],
        vec![vec![1, 3], vec![2], vec![4]],
        vec![vec![1, 4], vec![2], vec![3]],
        vec![vec![1], vec![2, 3], vec![4]],
        vec![vec![1], vec![2, 4], vec![3]],
        vec![vec![1], vec![2], vec![3, 4]],
        vec![vec![1], vec![2], vec![3], vec![4]],
    ]);
    assert_eq!(got, expected);
}

#[test]
fn partitions_come_in_growth_string_order() {
    let items = vec!['a', 'b', 'c'];
    let got = items.all_partitions();
    assert_eq!(
        got,
        vec![
            vec![vec!['a', 'b', 'c']],
            vec![vec!['a', 'b'], vec!['c']],
            vec![vec!['a', 'c'], vec!['b']],
            vec![vec!['a'], vec!['b', 'c']],
            vec![vec!['a'], vec!['b'], vec!['c']],
        ]
    );
}

#[test]
fn partition_counts_are_bell_numbers() {
    let mut table = PartitionsTable::new();
    let bell = [1usize, 2, 5, 15, 52, 203, 877, 4140, 21147, 115975];
    for (i, b) in bell.iter().enumerate() {
        assert_eq!(table.num_partitions(i as u32 + 1, 1), *b);
    }
    for n in 1..=7usize {
        let items: Vec<usize> = (0..n).collect();
        assert_eq!(items.all_partitions().len(), bell[n - 1]);
    }
}

#[test]
fn single_item_has_one_partition() {
    let items = vec![7u8];
    assert_eq!(items.all_partitions(), vec![vec![vec![7u8]]]);
}

#[test]
fn combinations_by_size_then_position() {
    let items = vec![1, 2, 3];
    assert_eq!(
        items.clone().all_combinations(),
        vec![
            vec![1],
            vec![2],
            vec![3],
            vec![1, 2],
            vec![1, 3],
            vec![2, 3],
            vec![1, 2, 3],
        ]
    );
    assert_eq!(
        items.all_subset_combinations(),
        vec![vec![1], vec![2], vec![3], vec![1, 2], vec![1, 3], vec![2, 3]]
    );
}

#[test]
fn combinations_of_nothing() {
    let items: Vec<u32> = Vec::new();
    assert!(items.clone().all_combinations().is_empty());
    assert!(items.all_subset_combinations().is_empty());
}

#[test]
fn table_index_formula() {
    assert_eq!(PartitionsTable::idx(1, 1), 0);
    assert_eq!(PartitionsTable::idx(3, 2), 8);
    assert_eq!(PartitionsTable::idx(1, 5), 10);
}

#[test]
fn counts_fit_up_to_detects_overflow() {
    assert!(counts_fit_up_to(1));
    assert!(counts_fit_up_to(10));
    assert!(!counts_fit_up_to(40));
}

#[test]
fn table_fills_only_as_far_as_needed() {
    let mut t = PartitionsTable::new();
    assert_eq!(t.num_partitions(2, 2), 3);
    assert_eq!(t.num_partitions(1, 2), 1);
    assert_eq!(t.num_partitions(3, 1), 5);
    assert_eq!(t.num_partitions(4, 1), 15);
}
