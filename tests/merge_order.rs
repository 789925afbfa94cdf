use merged_reader::batch::BatchMerger;
use merged_reader::merge::{merge_order, MergeQueue};

fn keys_of(streams: &Vec<Vec<i64>>, order: &Vec<(usize, usize)>) -> Vec<i64> {
    order.iter().map(|&(s, i)| streams[s][i]).collect()
}

#[test]
fn two_streams_interleave_by_first_timestamp() {
    let streams = vec![vec![100, 300], vec![150, 400]];
    let order = merge_order(&streams);
    assert_eq!(order, vec![(0, 0), (1, 0), (0, 1), (1, 1)]);
    assert_eq!(keys_of(&streams, &order), vec![100, 150, 300, 400]);
}

#[test]
fn merged_keys_are_sorted() {
    let streams = vec![vec![1, 5, 9, 12], vec![2, 3, 10], vec![], vec![0, 20]];
    let order = merge_order(&streams);
    let keys = keys_of(&streams, &order);
    assert_eq!(keys, vec![0, 1, 2, 3, 5, 9, 10, 12, 20]);
    assert_eq!(order.len(), 9);
}

#[test]
fn single_stream_comes_out_unchanged() {
    let streams = vec![vec![7, 8, 8, 11]];
    let order = merge_order(&streams);
    assert_eq!(order, vec![(0, 0), (0, 1), (0, 2), (0, 3)]);
}

#[test]
fn same_stream_twice_ties_go_to_first_stream() {
    let streams = vec![vec![5, 7], vec![5, 7]];
    let order = merge_order(&streams);
    assert_eq!(order, vec![(0, 0), (1, 0), (0, 1), (1, 1)]);
}

#[test]
fn zero_streams_merge_to_nothing() {
    let streams: Vec<Vec<i64>> = vec![];
    assert!(merge_order(&streams).is_empty());
}

#[test]
fn empty_streams_contribute_nothing() {
    let streams = vec![vec![], vec![4], vec![]];
    assert_eq!(merge_order(&streams), vec![(1, 0)]);
}

#[test]
fn negative_and_extreme_keys() {
    let streams = vec![vec![i64::MIN, 0], vec![-5, i64::MAX]];
    let order = merge_order(&streams);
    assert_eq!(keys_of(&streams, &order), vec![i64::MIN, -5, 0, i64::MAX]);
}

#[test]
fn unsorted_stream_keeps_its_own_order() {
    let streams = vec![vec![9, 1]];
    assert_eq!(merge_order(&streams), vec![(0, 0), (0, 1)]);
}

#[test]
fn queue_pops_smallest_then_first_on_ties() {
    let mut q = MergeQueue::new(3);
    assert_eq!(q.num_streams(), 3);
    assert!(q.is_empty());
    assert_eq!(q.pop_min(), None);
    q.offer(2, 10);
    q.offer(1, 10);
    q.offer(0, 30);
    assert!(!q.is_empty());
    assert_eq!(q.pop_min(), Some(1));
    assert_eq!(q.pop_min(), Some(2));
    assert_eq!(q.pop_min(), Some(0));
    assert_eq!(q.pop_min(), None);
    assert!(q.is_empty());
}

#[test]
fn batch_merger_hands_out_batches_in_key_order() {
    let mut m: BatchMerger<&str> = BatchMerger::new(2);
    assert_eq!(m.num_streams(), 2);
    assert!(!m.holds(0));
    m.offer(0, 100, "a100");
    m.offer(1, 150, "b150");
    assert!(m.holds(0));
    assert_eq!(m.pop(), Some((0, "a100")));
    assert!(!m.holds(0));
    m.offer(0, 300, "a300");
    assert_eq!(m.pop(), Some((1, "b150")));
    m.offer(1, 400, "b400");
    assert_eq!(m.pop(), Some((0, "a300")));
    assert_eq!(m.pop(), Some((1, "b400")));
    assert_eq!(m.pop(), None);
}
