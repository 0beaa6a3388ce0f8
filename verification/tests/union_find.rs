use partition_kit::union_find::{EmptyMetadata, UnionFind};

#[test]
fn test_empty() {
    let uf = UnionFind::<u32>::from_keys(Vec::new());
    assert_eq!(uf.num_groups(), 0);
}

#[test]
fn test_empty_with_metadata() {
    let uf = UnionFind::<u32, u64>::from_initializers(Vec::new());
    assert_eq!(uf.num_groups(), 0);
}

#[test]
fn test_find() {
    let mut uf = UnionFind::<u32>::from_keys((0..2).collect());
    assert_eq!(uf.num_groups(), 2);
    assert_eq!(uf.find(0), 0);
    assert_eq!(uf.find(1), 1);
}

#[test]
fn test_union() {
    let mut uf = UnionFind::<u32>::from_keys((0..4).collect());

    uf.union(0, 1);
    uf.union(2, 3);
    assert_eq!(uf.num_groups(), 2);

    uf.union(1, 0);
    assert_eq!(uf.num_groups(), 2);
}

#[test]
fn test_metadata() {
    let mut uf =
        UnionFind::<u32, u64>::from_initializers((0..2).map(|idx| (idx, (idx + 1) as u64)).collect());
    assert_eq!(uf.num_groups(), 2);
    assert_eq!(*uf.metadata(0), 1);
    assert_eq!(*uf.metadata(1), 2);

    uf.union(0, 1);
    let parent = uf.find(0);
    assert_eq!(*uf.metadata(parent), 3);
    assert_eq!(*uf.metadata(parent), 3);
}

#[test]
fn union_returns_first_representative_and_joins() {
    let mut uf = UnionFind::<u64>::from_keys(vec![10, 20, 30, 40, 50]);
    let r = uf.union(20, 30);
    assert_eq!(r, 20);
    assert_eq!(uf.find(30), 20);
    let r2 = uf.union(40, 30);
    assert_eq!(r2, 40);
    assert_eq!(uf.find(20), 40);
    assert_eq!(uf.find(30), 40);
    assert_eq!(uf.find_immut(30), 40);
    assert_eq!(uf.find(10), 10);
    assert_eq!(uf.num_groups(), 3);
    assert_eq!(uf.subtree_size(&40), 3);
    assert_eq!(uf.subtree_size(&10), 1);
}

#[test]
fn union_of_one_group_changes_nothing() {
    let mut uf = UnionFind::<u32, u64>::from_initializers(vec![(1, 5), (2, 7)]);
    uf.union(1, 2);
    let before_size = uf.subtree_size(&1);
    let before_meta = *uf.metadata(1);
    let r = uf.union(2, 1);
    assert_eq!(r, 1);
    assert_eq!(uf.num_groups(), 1);
    assert_eq!(uf.subtree_size(&1), before_size);
    assert_eq!(*uf.metadata(1), before_meta);
    assert_eq!(before_meta, 12);
}

#[test]
fn repeated_key_keeps_last_metadata() {
    let uf = UnionFind::<u32, u64>::from_initializers(vec![(3, 1), (4, 2), (3, 9)]);
    assert_eq!(uf.num_groups(), 2);
    assert_eq!(*uf.metadata(3), 9);
    assert_eq!(*uf.metadata(4), 2);
}

#[test]
fn long_chain_finds_root_and_sizes_add_up() {
    let mut uf = UnionFind::<u32>::from_keys((0..64).collect());
    for i in (1..64).rev() {
        uf.union(i - 1, i);
    }
    assert_eq!(uf.num_groups(), 1);
    for i in 0..64 {
        assert_eq!(uf.find_immut(i), 0);
        assert_eq!(uf.find(i), 0);
    }
    assert_eq!(uf.subtree_size(&0), 64);
}

#[test]
fn keys_and_root_level_keys() {
    let mut uf = UnionFind::<i32>::from_keys(vec![-1, 2, 5, 7]);
    uf.union(2, 7);
    let mut ks = uf.keys();
    ks.sort();
    assert_eq!(ks, vec![-1, 2, 5, 7]);
    let mut roots: Vec<i32> = uf.root_level_keys().into_iter().collect();
    roots.sort();
    assert_eq!(roots, vec![-1, 2, 5]);
}

#[test]
fn metadata_mut_writes_through() {
    let mut uf = UnionFind::<u32, u64>::from_initializers(vec![(1, 1), (2, 2)]);
    *uf.metadata_mut(2) = 40;
    assert_eq!(*uf.metadata(2), 40);
    uf.union(1, 2);
    assert_eq!(*uf.metadata(1), 41);
}

#[test]
fn empty_metadata_combines() {
    let mut uf = UnionFind::<usize, EmptyMetadata>::from_keys(vec![0, 1]);
    uf.union(0, 1);
    assert_eq!(uf.num_groups(), 1);
}

#[test]
fn unions_join_keys_along_chains() {
    let mut uf = UnionFind::<u32>::from_keys(vec![0, 1, 2, 3, 4, 5]);
    uf.union(0, 1);
    uf.union(3, 4);
    uf.union(1, 2);
    assert_eq!(uf.find_immut(0), uf.find_immut(2));
    assert_eq!(uf.find_immut(3), uf.find_immut(4));
    assert_ne!(uf.find_immut(2), uf.find_immut(3));
    assert_ne!(uf.find_immut(5), uf.find_immut(0));
    uf.union(4, 2);
    assert_eq!(uf.find_immut(0), uf.find_immut(3));
    assert_eq!(uf.num_groups(), 2);
}

#[test]
fn find_keeps_representatives_after_splitting() {
    let mut uf = UnionFind::<u32>::from_keys((0..8).collect());
    for i in 0..7 {
        uf.union(i + 1, i);
    }
    let r = uf.find(0);
    assert_eq!(r, 7);
    for i in 0..8 {
        assert_eq!(uf.find_immut(i), 7);
    }
    assert_eq!(uf.subtree_size(&7), 8);
}
