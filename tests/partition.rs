use mdx2db::partition::split_tasks;

#[test]
fn round_robin_assignment() {
    let keys: Vec<u32> = (0..10).collect();
    let (parts, n) = split_tasks(keys, 3);
    assert_eq!(n, 10);
    assert_eq!(parts, vec![vec![0, 3, 6, 9], vec![1, 4, 7], vec![2, 5, 8]]);
}

#[test]
fn zero_workers_means_one() {
    let keys = vec!["a".to_string(), "b".to_string()];
    let (parts, n) = split_tasks(keys, 0);
    assert_eq!(n, 2);
    assert_eq!(parts, vec![vec!["a".to_string(), "b".to_string()]]);
}

#[test]
fn more_workers_than_keys_leaves_empty_partitions() {
    let (parts, n) = split_tasks(vec![7u8, 8], 4);
    assert_eq!(n, 2);
    assert_eq!(parts, vec![vec![7], vec![8], vec![], vec![]]);
}

#[test]
fn empty_key_set() {
    let (parts, n) = split_tasks(Vec::<u8>::new(), 3);
    assert_eq!(n, 0);
    assert_eq!(parts.len(), 3);
    assert!(parts.iter().all(|p| p.is_empty()));
}

#[test]
fn partitions_are_balanced_disjoint_and_complete() {
    for n in 1..40usize {
        for t in 1..=n {
            let keys: Vec<usize> = (0..n).collect();
            let (parts, count) = split_tasks(keys, t);
            assert_eq!(count, n);
            assert_eq!(parts.len(), t);
            let max = parts.iter().map(|p| p.len()).max().unwrap();
            let min = parts.iter().map(|p| p.len()).min().unwrap();
            assert!(max - min <= 1);
            let mut all: Vec<usize> = parts.concat();
            all.sort();
            assert_eq!(all, (0..n).collect::<Vec<usize>>());
        }
    }
}
