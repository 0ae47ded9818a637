use parallel_map::collatz::transform_number;
use parallel_map::mapping::{concat_parts, map_range, map_sequential};
use parallel_map::partition::{plan, plan_chunks, worker_count, Chunk, Plan, THRESHOLD};

/// Follows the plan for `input`, mapping the chunks one after another.
fn map_by_plan<T, R, F: Fn(&T) -> R>(input: &Vec<T>, hw: Option<usize>, f: &F) -> Vec<R> {
    match plan(input.len(), hw) {
        Plan::Sequential => map_sequential(input, f),
        Plan::Parallel(chunks) => {
            let parts = chunks
                .iter()
                .map(|c| map_range(input, c.start, c.end, f))
                .collect::<Vec<_>>();
            concat_parts(parts)
        }
    }
}

#[test]
fn test_single_thread_processing() {
    let input = vec![1, 2, 3];
    assert!(matches!(plan(input.len(), Some(8)), Plan::Sequential));
    assert_eq!(map_by_plan(&input, Some(8), &|x: &i32| x + 1), vec![2, 3, 4]);
}

#[test]
fn test_multi_thread_processing() {
    let large_input = (0..100000).collect::<Vec<i64>>();
    assert!(matches!(plan(large_input.len(), Some(8)), Plan::Parallel(_)));
    assert_eq!(
        map_by_plan(&large_input, Some(8), &|x: &i64| x + 1),
        large_input.iter().map(|&x| x + 1).collect::<Vec<_>>()
    );
}

#[test]
fn threshold_boundary() {
    assert_eq!(THRESHOLD, 100);
    let at = (0..100).collect::<Vec<u32>>();
    let above = (0..101).collect::<Vec<u32>>();
    assert!(matches!(plan(at.len(), Some(8)), Plan::Sequential));
    match plan(above.len(), Some(8)) {
        Plan::Parallel(chunks) => assert_eq!(chunks.len(), 8),
        Plan::Sequential => panic!("101 elements must take the parallel path"),
    }
    let f = |x: &u32| x * 3;
    assert_eq!(map_by_plan(&at, Some(8), &f), map_sequential(&at, &f));
    assert_eq!(map_by_plan(&above, Some(8), &f), map_sequential(&above, &f));
}

#[test]
fn uneven_partition_covers_each_index_once() {
    let chunks = plan_chunks(103, 4);
    assert_eq!(
        chunks,
        vec![
            Chunk { worker_index: 0, start: 0, end: 25 },
            Chunk { worker_index: 1, start: 25, end: 50 },
            Chunk { worker_index: 2, start: 50, end: 75 },
            Chunk { worker_index: 3, start: 75, end: 103 },
        ]
    );
    for k in 0..103 {
        let holders = chunks.iter().filter(|c| c.start <= k && k < c.end).count();
        assert_eq!(holders, 1);
    }
    let input = (0..103).collect::<Vec<u64>>();
    let f = |x: &u64| x * x;
    assert_eq!(map_by_plan(&input, Some(4), &f), input.iter().map(|x| x * x).collect::<Vec<_>>());
}

#[test]
fn one_worker_takes_everything() {
    assert_eq!(plan_chunks(7, 1), vec![Chunk { worker_index: 0, start: 0, end: 7 }]);
}

#[test]
fn as_many_workers_as_elements() {
    let chunks = plan_chunks(5, 5);
    for (i, c) in chunks.iter().enumerate() {
        assert_eq!((c.worker_index, c.start, c.end), (i, i, i + 1));
    }
}

#[test]
fn worker_count_is_bounded() {
    assert_eq!(worker_count(1000, Some(8)), 8);
    assert_eq!(worker_count(5, Some(8)), 5);
    assert_eq!(worker_count(1000, None), 4);
    assert_eq!(worker_count(2, None), 2);
    assert_eq!(worker_count(1000, Some(1)), 1);
}

#[test]
fn parallel_plan_without_host_parallelism() {
    match plan(1000, None) {
        Plan::Parallel(chunks) => {
            assert_eq!(chunks.len(), 4);
            assert_eq!(chunks[3], Chunk { worker_index: 3, start: 750, end: 1000 });
        }
        Plan::Sequential => panic!("1000 elements must take the parallel path"),
    }
}

#[test]
fn empty_input() {
    let input: Vec<i32> = vec![];
    assert!(matches!(plan(0, Some(8)), Plan::Sequential));
    assert_eq!(map_by_plan(&input, Some(8), &|x: &i32| x + 1), Vec::<i32>::new());
    assert_eq!(concat_parts(Vec::<Vec<i32>>::new()), Vec::<i32>::new());
}

#[test]
fn concat_keeps_part_order() {
    let parts = vec![vec![1, 2], vec![], vec![3], vec![4, 5, 6]];
    assert_eq!(concat_parts(parts), vec![1, 2, 3, 4, 5, 6]);
}

#[test]
fn map_range_maps_only_its_range() {
    let input = vec![10, 20, 30, 40, 50, 60];
    assert_eq!(map_range(&input, 2, 5, &|x: &i32| x / 10), vec![3, 4, 5]);
    assert_eq!(map_range(&input, 3, 3, &|x: &i32| x / 10), Vec::<i32>::new());
}

#[test]
fn demonstration_scenario() {
    let k = 8;
    let f = move |x: &u64| transform_number(*x, k);
    assert_eq!(map_by_plan(&vec![1, 2, 3, 100], Some(8), &f), vec![0, 1, 7, 88]);
}

#[test]
fn parallel_path_matches_sequential_on_transform() {
    let input = (1..=1000).collect::<Vec<u64>>();
    let f = |x: &u64| transform_number(*x, 8);
    for hw in [None, Some(1), Some(3), Some(7), Some(16)] {
        assert_eq!(map_by_plan(&input, hw, &f), map_sequential(&input, &f));
    }
}

#[test]
fn test_transform_number_to_one() {
    assert_eq!(transform_number(1, 10), 0);
    assert_eq!(transform_number(2, 10), 1);
}

#[test]
fn test_transform_number_max_iter() {
    assert_eq!(transform_number(3, 2), 5);
}

#[test]
fn transform_number_edges() {
    assert_eq!(transform_number(27, 0), 27);
    assert_eq!(transform_number(0, 5), 0);
    assert_eq!(transform_number(6, 8), 8);
    assert_eq!(transform_number(100, 8), 88);
}
